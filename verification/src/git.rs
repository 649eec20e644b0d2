//! What is asked of git and what is read out of its answers.
//!
//! Every operation comes as the arguments that git is run with and, where git
//! answers, a function from its output to plain values.
use crate::path::{
    components, lemma_order_parts_flip, lemma_order_parts_trans, order_paths, path_eq, path_order,
    same_path, Part,
};
use crate::text::{
    chars_of, copy, copy_opt, find_char, find_from, opt_str, parse_u64, parse_unsigned, split,
    split_at_char, string_of, strs, utf8_len,
};
use vstd::prelude::*;
use vstd::utf8::{decode_utf8, valid_utf8};

verus! {

#[derive(Debug, Clone, Copy, PartialEq, Eq, Structural)]
pub enum Scope {
    Worktree,
    Branch,
}

#[derive(Debug, Clone, Copy, PartialEq, Eq, Structural)]
pub enum ChangeKind {
    Modified,
    Added,
    Deleted,
    Renamed,
    Untracked,
    Conflicted,
}

#[derive(Debug, Clone, Copy, PartialEq, Eq, Structural)]
pub enum StageState {
    Unstaged,
    Staged,
    Partial,
    Untracked,
    /// Branch scope and conflicts: staging is not applicable.
    NA,
}

/// One entry of `git log` for the history view.
#[derive(Debug)]
pub struct CommitInfo {
    pub sha: String,
    pub short: String,
    pub author: String,
    pub date: String,
    pub subject: String,
}

#[verifier::ext_equal]
pub struct CommitView {
    pub sha: Seq<char>,
    pub short: Seq<char>,
    pub author: Seq<char>,
    pub date: Seq<char>,
    pub subject: Seq<char>,
}

impl View for CommitInfo {
    type V = CommitView;

    open spec fn view(&self) -> CommitView {
        CommitView {
            sha: self.sha@,
            short: self.short@,
            author: self.author@,
            date: self.date@,
            subject: self.subject@,
        }
    }
}

impl Clone for CommitInfo {
    fn clone(&self) -> (r: CommitInfo)
        ensures
            r@ == self@,
    {
        CommitInfo {
            sha: self.sha.clone(),
            short: self.short.clone(),
            author: self.author.clone(),
            date: self.date.clone(),
            subject: self.subject.clone(),
        }
    }
}

#[derive(Debug)]
pub struct FileEntry {
    /// Relative to the repository's root; the *new* path for renames.
    pub path: String,
    pub orig_path: Option<String>,
    pub kind: ChangeKind,
    pub stage: StageState,
    /// None = binary (numstat reports `-`).
    pub adds: Option<u32>,
    pub dels: Option<u32>,
}

#[verifier::ext_equal]
pub struct EntryView {
    pub path: Seq<char>,
    pub orig_path: Option<Seq<char>>,
    pub kind: ChangeKind,
    pub stage: StageState,
    pub adds: Option<u32>,
    pub dels: Option<u32>,
}

impl View for FileEntry {
    type V = EntryView;

    open spec fn view(&self) -> EntryView {
        EntryView {
            path: self.path@,
            orig_path: opt_str(self.orig_path),
            kind: self.kind,
            stage: self.stage,
            adds: self.adds,
            dels: self.dels,
        }
    }
}

impl Clone for FileEntry {
    fn clone(&self) -> (r: FileEntry)
        ensures
            r@ == self@,
    {
        FileEntry {
            path: self.path.clone(),
            orig_path: copy_opt(&self.orig_path),
            kind: self.kind,
            stage: self.stage,
            adds: self.adds,
            dels: self.dels,
        }
    }
}

pub open spec fn entries_view(s: Seq<FileEntry>) -> Seq<EntryView> {
    s.map_values(|e: FileEntry| e@)
}

pub broadcast proof fn lemma_entries_push(s: Seq<FileEntry>, e: FileEntry)
    ensures
        #[trigger] entries_view(s.push(e)) == entries_view(s).push(e@),
{
    assert(entries_view(s.push(e)) =~= entries_view(s).push(e@));
}

/// Why git's output could not be read.
#[derive(Debug, Clone, Copy, PartialEq, Eq, Structural)]
pub enum ParseError {
    MissingXy,
    TooShort,
    MissingOrigField,
    RenameMissingOrig,
    RenameMissingNew,
    MissingPath,
    /// The line counts of one path add up to more than a counter holds.
    StatOverflow,
}

impl ParseError {
    pub open spec fn text(self) -> Seq<char> {
        match self {
            ParseError::MissingXy => "porcelain record missing XY field"@,
            ParseError::TooShort => "porcelain record too short"@,
            ParseError::MissingOrigField => "rename record missing orig path field"@,
            ParseError::RenameMissingOrig => "rename missing orig path"@,
            ParseError::RenameMissingNew => "rename missing new path"@,
            ParseError::MissingPath => "name-status missing path"@,
            ParseError::StatOverflow => "line counts too large"@,
        }
    }

    pub fn message(&self) -> (r: String)
        ensures
            r@ == self.text(),
    {
        match self {
            ParseError::MissingXy => copy("porcelain record missing XY field"),
            ParseError::TooShort => copy("porcelain record too short"),
            ParseError::MissingOrigField => copy("rename record missing orig path field"),
            ParseError::RenameMissingOrig => copy("rename missing orig path"),
            ParseError::RenameMissingNew => copy("rename missing new path"),
            ParseError::MissingPath => copy("name-status missing path"),
            ParseError::StatOverflow => copy("line counts too large"),
        }
    }
}

pub open spec fn result_view(
    r: Result<Vec<FileEntry>, ParseError>,
) -> Result<Seq<EntryView>, ParseError> {
    match r {
        Ok(v) => Ok(entries_view(v@)),
        Err(e) => Err(e),
    }
}

/// `first` in front of what is read next.
pub open spec fn prepend(
    first: Seq<EntryView>,
    rest: Result<Seq<EntryView>, ParseError>,
) -> Result<Seq<EntryView>, ParseError> {
    match rest {
        Ok(s) => Ok(first + s),
        Err(e) => Err(e),
    }
}

proof fn lemma_prepend_push(
    first: Seq<EntryView>,
    e: EntryView,
    rest: Result<Seq<EntryView>, ParseError>,
)
    ensures
        prepend(first, prepend(seq![e], rest)) == prepend(first.push(e), rest),
{
    if let Ok(s) = rest {
        assert(first + (seq![e] + s) =~= first.push(e) + s);
    }
}

// ---- bytes to text ---------------------------------------------------------

/// What `String::from_utf8_lossy` makes of bytes.
pub uninterp spec fn lossy_text(raw: Seq<u8>) -> Seq<char>;

/// `String::from_utf8_lossy`, owned: bytes that are valid UTF-8 are decoded,
/// in others each invalid sequence is replaced.
#[verifier::external_body]
pub(crate) fn lossy(raw: &[u8]) -> (s: String)
    ensures
        s@ == lossy_text(raw@),
        valid_utf8(raw@) ==> s@ == decode_utf8(raw@),
{
    String::from_utf8_lossy(raw).into_owned()
}

// ---- git status ------------------------------------------------------------

/// Where the text behind the `n`-th space from `from` on starts.
pub open spec fn after_spaces(s: Seq<char>, from: int, n: nat) -> Option<int>
    decreases n,
{
    if n == 0 {
        Some(from)
    } else {
        let i = find_from(s, ' ', from);
        if i >= s.len() {
            None
        } else {
            after_spaces(s, i + 1, (n - 1) as nat)
        }
    }
}

/// A record's XY field, the second, and its path: everything from field
/// `path_field` on, as a path may hold spaces.
pub open spec fn ordinary(record: Seq<char>, path_field: nat) -> Result<
    (Seq<char>, Seq<char>),
    ParseError,
> {
    let i = find_from(record, ' ', 0);
    if i >= record.len() {
        Err(ParseError::MissingXy)
    } else {
        match after_spaces(record, 0, path_field) {
            Some(start) => Ok(
                (record.subrange(i + 1, find_from(record, ' ', i + 1)), record.skip(start)),
            ),
            None => Err(ParseError::TooShort),
        }
    }
}

/// The letter that says what changed: the index's, or else the worktree's.
pub open spec fn xy_letter(xy: Seq<char>) -> char {
    let x = if xy.len() > 0 {
        xy[0]
    } else {
        '.'
    };
    let y = if xy.len() > 1 {
        xy[1]
    } else {
        '.'
    };
    if x != '.' {
        x
    } else {
        y
    }
}

pub open spec fn xy_kind(xy: Seq<char>) -> ChangeKind {
    if xy_letter(xy) == 'A' {
        ChangeKind::Added
    } else if xy_letter(xy) == 'D' {
        ChangeKind::Deleted
    } else if xy_letter(xy) == 'R' {
        ChangeKind::Renamed
    } else {
        ChangeKind::Modified
    }
}

pub open spec fn xy_stage(xy: Seq<char>) -> StageState {
    let staged = xy.len() > 0 && xy[0] != '.';
    let unstaged = xy.len() > 1 && xy[1] != '.';
    if staged && unstaged {
        StageState::Partial
    } else if staged {
        StageState::Staged
    } else {
        StageState::Unstaged
    }
}

/// An entry without line counts.
pub open spec fn bare_entry(
    path: Seq<char>,
    orig_path: Option<Seq<char>>,
    kind: ChangeKind,
    stage: StageState,
) -> EntryView {
    EntryView { path, orig_path, kind, stage, adds: None, dels: None }
}

/// The entries of the NUL-separated `fields` of `git status --porcelain=v2 -z`
/// from field `i` on.
///
/// Records are told apart by their first character. A rename record takes one
/// more field, the original path. Empty fields, ignored files, headers and
/// unknown records give nothing.
pub open spec fn porcelain(fields: Seq<Seq<char>>, i: int) -> Result<Seq<EntryView>, ParseError>
    decreases fields.len() - i,
{
    if i < 0 || i >= fields.len() {
        Ok(Seq::empty())
    } else {
        let record = fields[i];
        if record.len() == 0 {
            porcelain(fields, i + 1)
        } else if record[0] == '1' {
            match ordinary(record, 8) {
                Ok((xy, path)) => prepend(
                    seq![bare_entry(path, None, xy_kind(xy), xy_stage(xy))],
                    porcelain(fields, i + 1),
                ),
                Err(e) => Err(e),
            }
        } else if record[0] == '2' {
            match ordinary(record, 9) {
                Ok((xy, path)) => if i + 1 >= fields.len() {
                    Err(ParseError::MissingOrigField)
                } else {
                    prepend(
                        seq![
                            bare_entry(
                                path,
                                Some(fields[i + 1]),
                                ChangeKind::Renamed,
                                xy_stage(xy),
                            ),
                        ],
                        porcelain(fields, i + 2),
                    )
                },
                Err(e) => Err(e),
            }
        } else if record[0] == 'u' {
            match ordinary(record, 10) {
                Ok((xy, path)) => prepend(
                    seq![bare_entry(path, None, ChangeKind::Conflicted, StageState::NA)],
                    porcelain(fields, i + 1),
                ),
                Err(e) => Err(e),
            }
        } else if record[0] == '?' {
            if record.len() < 2 || utf8_len(record[1]) != 1 {
                Err(ParseError::TooShort)
            } else {
                prepend(
                    seq![
                        bare_entry(
                            record.skip(2),
                            None,
                            ChangeKind::Untracked,
                            StageState::Untracked,
                        ),
                    ],
                    porcelain(fields, i + 1),
                )
            }
        } else {
            porcelain(fields, i + 1)
        }
    }
}

fn split_ordinary(record: &str, path_field: usize) -> (r: Result<(String, String), ParseError>)
    ensures
        match r {
            Ok(p) => ordinary(record@, path_field as nat) == Ok::<
                (Seq<char>, Seq<char>),
                ParseError,
            >((p.0@, p.1@)),
            Err(e) => ordinary(record@, path_field as nat) == Err::<
                (Seq<char>, Seq<char>),
                ParseError,
            >(e),
        },
{
    let cs = chars_of(record);
    let space = find_char(&cs, ' ', 0);
    if space >= cs.len() {
        return Err(ParseError::MissingXy);
    }
    let xy_end = find_char(&cs, ' ', space + 1);
    let xy = string_of(&cs, space + 1, xy_end);
    let mut start: usize = 0;
    let mut left: usize = path_field;
    while left > 0
        invariant
            start <= cs@.len(),
            cs@ == record@,
            space < cs@.len(),
            space == find_from(cs@, ' ', 0),
            left <= path_field,
            after_spaces(cs@, start as int, left as nat) == after_spaces(
                cs@,
                0,
                path_field as nat,
            ),
        decreases left,
    {
        let at = find_char(&cs, ' ', start);
        if at >= cs.len() {
            return Err(ParseError::TooShort);
        }
        start = at + 1;
        left -= 1;
    }
    let path = string_of(&cs, start, cs.len());
    assert(path@ =~= record@.skip(start as int));
    Ok((xy, path))
}

fn kind_from_xy(xy: &str) -> (r: ChangeKind)
    ensures
        r == xy_kind(xy@),
{
    let cs = chars_of(xy);
    let x = if cs.len() > 0 {
        cs[0]
    } else {
        '.'
    };
    let y = if cs.len() > 1 {
        cs[1]
    } else {
        '.'
    };
    let letter = if x != '.' {
        x
    } else {
        y
    };
    if letter == 'A' {
        ChangeKind::Added
    } else if letter == 'D' {
        ChangeKind::Deleted
    } else if letter == 'R' {
        ChangeKind::Renamed
    } else {
        ChangeKind::Modified
    }
}

fn stage_from_xy(xy: &str) -> (r: StageState)
    ensures
        r == xy_stage(xy@),
{
    let cs = chars_of(xy);
    let staged = cs.len() > 0 && cs[0] != '.';
    let unstaged = cs.len() > 1 && cs[1] != '.';
    if staged && unstaged {
        StageState::Partial
    } else if staged {
        StageState::Staged
    } else {
        StageState::Unstaged
    }
}

fn make_entry(
    path: String,
    orig_path: Option<String>,
    kind: ChangeKind,
    stage: StageState,
) -> (r: FileEntry)
    ensures
        r@ == bare_entry(path@, opt_str(orig_path), kind, stage),
{
    FileEntry { path, orig_path, kind, stage, adds: None, dels: None }
}

/// Parse `git status --porcelain=v2 -z` output.
pub fn parse_porcelain_v2(raw: &[u8]) -> (r: Result<Vec<FileEntry>, ParseError>)
    ensures
        result_view(r) == porcelain(split(lossy_text(raw@), '\0'), 0),
{
    let text = lossy(raw);
    parse_porcelain_text(text.as_str())
}

/// Parse the text of `git status --porcelain=v2 -z`. Records are
/// NUL-terminated; rename records (`2 ...`) carry one extra NUL-separated
/// field, the original path.
pub fn parse_porcelain_text(text: &str) -> (r: Result<Vec<FileEntry>, ParseError>)
    ensures
        result_view(r) == porcelain(split(text@, '\0'), 0),
{
    broadcast use lemma_entries_push;

    let fields = split_at_char(text, '\0');
    let ghost all = strs(fields@);
    let mut entries: Vec<FileEntry> = Vec::new();
    let mut i: usize = 0;
    proof {
        if let Ok(s) = porcelain(all, 0) {
            assert(entries_view(entries@) + s =~= s);
        }
    }
    while i < fields.len()
        invariant
            i <= fields@.len(),
            all == strs(fields@),
            all == split(text@, '\0'),
            prepend(entries_view(entries@), porcelain(all, i as int)) == porcelain(all, 0),
        decreases fields@.len() - i,
    {
        let ghost done = entries_view(entries@);
        let ghost at = i as int;
        assert(all[i as int] == fields@[i as int]@);
        let record = fields[i].as_str();
        let cs = chars_of(record);
        if cs.len() == 0 {
            i += 1;
            continue ;
        }
        let mark = cs[0];
        if mark == '1' {
            match split_ordinary(record, 8) {
                Ok((xy, path)) => {
                    let e = make_entry(
                        path,
                        None,
                        kind_from_xy(xy.as_str()),
                        stage_from_xy(xy.as_str()),
                    );
                    proof {
                        assert(porcelain(all, at) == prepend(seq![e@], porcelain(all, at + 1)));
                        lemma_prepend_push(done, e@, porcelain(all, i + 1));
                    }
                    entries.push(e);
                    assert(entries_view(entries@) == done.push(e@));
                },
                Err(e) => {
                    return Err(e);
                },
            }
        } else if mark == '2' {
            match split_ordinary(record, 9) {
                Ok((xy, path)) => {
                    if i + 1 >= fields.len() {
                        return Err(ParseError::MissingOrigField);
                    }
                    i += 1;
                    let orig = copy(fields[i].as_str());
                    let e = make_entry(
                        path,
                        Some(orig),
                        ChangeKind::Renamed,
                        stage_from_xy(xy.as_str()),
                    );
                    proof {
                        assert(all[i as int] == fields@[i as int]@);
                        assert(porcelain(all, at) == prepend(seq![e@], porcelain(all, at + 2)));
                        lemma_prepend_push(done, e@, porcelain(all, i + 1));
                    }
                    entries.push(e);
                    assert(entries_view(entries@) == done.push(e@));
                },
                Err(e) => {
                    return Err(e);
                },
            }
        } else if mark == 'u' {
            match split_ordinary(record, 10) {
                Ok((_, path)) => {
                    let e = make_entry(path, None, ChangeKind::Conflicted, StageState::NA);
                    proof {
                        assert(porcelain(all, at) == prepend(seq![e@], porcelain(all, at + 1)));
                        lemma_prepend_push(done, e@, porcelain(all, i + 1));
                    }
                    entries.push(e);
                    assert(entries_view(entries@) == done.push(e@));
                },
                Err(e) => {
                    return Err(e);
                },
            }
        } else if mark == '?' {
            if cs.len() < 2 || cs[1] as u32 > 0x7f {
                return Err(ParseError::TooShort);
            }
            let path = string_of(&cs, 2, cs.len());
            assert(path@ =~= cs@.skip(2));
            let e = make_entry(path, None, ChangeKind::Untracked, StageState::Untracked);
            proof {
                assert(porcelain(all, at) == prepend(seq![e@], porcelain(all, at + 1)));
                lemma_prepend_push(done, e@, porcelain(all, i + 1));
            }
            entries.push(e);
            assert(entries_view(entries@) == done.push(e@));
        }
        i += 1;
        assert(prepend(entries_view(entries@), porcelain(all, i as int)) == prepend(
            done,
            porcelain(all, at),
        ));
    }
    proof {
        assert(entries_view(entries@) + Seq::<EntryView>::empty() =~= entries_view(entries@));
    }
    Ok(entries)
}

// ---- git diff --name-status ------------------------------------------------

pub open spec fn status_kind(letter: char) -> ChangeKind {
    if letter == 'A' {
        ChangeKind::Added
    } else if letter == 'D' {
        ChangeKind::Deleted
    } else if letter == 'U' {
        ChangeKind::Conflicted
    } else {
        ChangeKind::Modified
    }
}

/// The entries of the NUL-separated `fields` of `git diff --name-status -z -M`
/// from field `i` on: `status path`, for renames and copies `status orig new`.
pub open spec fn name_status(fields: Seq<Seq<char>>, i: int) -> Result<Seq<EntryView>, ParseError>
    decreases fields.len() - i,
{
    if i < 0 || i >= fields.len() {
        Ok(Seq::empty())
    } else if fields[i].len() == 0 {
        name_status(fields, i + 1)
    } else if fields[i][0] == 'R' || fields[i][0] == 'C' {
        if i + 1 >= fields.len() {
            Err(ParseError::RenameMissingOrig)
        } else if i + 2 >= fields.len() {
            Err(ParseError::RenameMissingNew)
        } else {
            prepend(
                seq![
                    bare_entry(
                        fields[i + 2],
                        Some(fields[i + 1]),
                        ChangeKind::Renamed,
                        StageState::NA,
                    ),
                ],
                name_status(fields, i + 3),
            )
        }
    } else if i + 1 >= fields.len() {
        Err(ParseError::MissingPath)
    } else {
        prepend(
            seq![bare_entry(fields[i + 1], None, status_kind(fields[i][0]), StageState::NA)],
            name_status(fields, i + 2),
        )
    }
}

/// Parse `git diff --name-status -z -M` output.
pub fn parse_name_status(raw: &[u8]) -> (r: Result<Vec<FileEntry>, ParseError>)
    ensures
        result_view(r) == name_status(split(lossy_text(raw@), '\0'), 0),
{
    let text = lossy(raw);
    parse_name_status_text(text.as_str())
}

/// Parse the text of `git diff --name-status -z -M`.
pub fn parse_name_status_text(text: &str) -> (r: Result<Vec<FileEntry>, ParseError>)
    ensures
        result_view(r) == name_status(split(text@, '\0'), 0),
{
    broadcast use lemma_entries_push;

    let fields = split_at_char(text, '\0');
    let ghost all = strs(fields@);
    let mut entries: Vec<FileEntry> = Vec::new();
    let mut i: usize = 0;
    proof {
        if let Ok(s) = name_status(all, 0) {
            assert(entries_view(entries@) + s =~= s);
        }
    }
    while i < fields.len()
        invariant
            i <= fields@.len(),
            all == strs(fields@),
            all == split(text@, '\0'),
            prepend(entries_view(entries@), name_status(all, i as int)) == name_status(all, 0),
        decreases fields@.len() - i,
    {
        let ghost done = entries_view(entries@);
        let ghost at = i as int;
        let ghost before = entries@;
        assert(all[at] == fields@[at]@);
        let cs = chars_of(fields[i].as_str());
        if cs.len() == 0 {
            i += 1;
            continue ;
        }
        let letter = cs[0];
        let e: FileEntry;
        if letter == 'R' || letter == 'C' {
            if i + 1 >= fields.len() {
                return Err(ParseError::RenameMissingOrig);
            }
            if i + 2 >= fields.len() {
                return Err(ParseError::RenameMissingNew);
            }
            assert(all[at + 1] == fields@[at + 1]@);
            assert(all[at + 2] == fields@[at + 2]@);
            let orig = copy(fields[i + 1].as_str());
            let new = copy(fields[i + 2].as_str());
            e = make_entry(new, Some(orig), ChangeKind::Renamed, StageState::NA);
            i += 3;
        } else {
            if i + 1 >= fields.len() {
                return Err(ParseError::MissingPath);
            }
            assert(all[at + 1] == fields@[at + 1]@);
            let kind = if letter == 'A' {
                ChangeKind::Added
            } else if letter == 'D' {
                ChangeKind::Deleted
            } else if letter == 'U' {
                ChangeKind::Conflicted
            } else {
                ChangeKind::Modified
            };
            e = make_entry(copy(fields[i + 1].as_str()), None, kind, StageState::NA);
            i += 2;
        }
        proof {
            assert(name_status(all, at) == prepend(seq![e@], name_status(all, i as int)));
            lemma_prepend_push(done, e@, name_status(all, i as int));
            lemma_entries_push(before, e);
        }
        entries.push(e);
        assert(entries@ =~= before.push(e));
    }
    proof {
        assert(entries_view(entries@) + Seq::<EntryView>::empty() =~= entries_view(entries@));
    }
    Ok(entries)
}

// ---- git diff --numstat ----------------------------------------------------

/// Added and deleted lines of one path; `None` for a binary file.
pub type Stat = Option<(u32, u32)>;

/// What the two count columns say: `-` stands for a binary file.
pub open spec fn stat_of(adds: Seq<char>, dels: Seq<char>) -> Stat {
    match (parse_unsigned(adds, u32::MAX as nat), parse_unsigned(dels, u32::MAX as nat)) {
        (Some(a), Some(d)) => Some((a as u32, d as u32)),
        _ => None,
    }
}

/// The paths and counts of the NUL-separated `fields` of `git diff --numstat
/// -z` from field `i` on: `adds TAB dels TAB path`; a rename leaves the path
/// empty and adds two fields, the original and the new path.
pub open spec fn numstat(fields: Seq<Seq<char>>, i: int) -> Seq<(Seq<char>, Stat)>
    decreases fields.len() - i,
{
    if i < 0 || i >= fields.len() {
        Seq::empty()
    } else {
        let columns = split(fields[i], '\t');
        if fields[i].len() == 0 || columns.len() < 2 {
            numstat(fields, i + 1)
        } else if columns.len() > 2 && columns[2].len() > 0 {
            seq![(columns[2], stat_of(columns[0], columns[1]))] + numstat(fields, i + 1)
        } else if i + 2 < fields.len() {
            seq![(fields[i + 2], stat_of(columns[0], columns[1]))] + numstat(fields, i + 3)
        } else {
            Seq::empty()
        }
    }
}

pub open spec fn stats_view(v: Seq<(String, Stat)>) -> Seq<(Seq<char>, Stat)> {
    v.map_values(|p: (String, Stat)| (p.0@, p.1))
}

proof fn lemma_stats_push(v: Seq<(String, Stat)>, p: (String, Stat))
    ensures
        stats_view(v.push(p)) == stats_view(v).push((p.0@, p.1)),
{
    assert(stats_view(v.push(p)) =~= stats_view(v).push((p.0@, p.1)));
}

/// Parse `git diff --numstat -z` output.
pub fn parse_numstat(raw: &[u8]) -> (r: Vec<(String, Stat)>)
    ensures
        stats_view(r@) == numstat(split(lossy_text(raw@), '\0'), 0),
{
    let text = lossy(raw);
    parse_numstat_text(text.as_str())
}

/// Parse the text of `git diff --numstat -z`.
pub fn parse_numstat_text(text: &str) -> (r: Vec<(String, Stat)>)
    ensures
        stats_view(r@) == numstat(split(text@, '\0'), 0),
{
    let fields = split_at_char(text, '\0');
    let ghost all = strs(fields@);
    let mut out: Vec<(String, Stat)> = Vec::new();
    let mut i: usize = 0;
    assert(stats_view(out@) + numstat(all, 0) =~= numstat(all, 0));
    while i < fields.len()
        invariant
            i <= fields@.len(),
            all == strs(fields@),
            all == split(text@, '\0'),
            stats_view(out@) + numstat(all, i as int) == numstat(all, 0),
        decreases fields@.len() - i,
    {
        let ghost done = stats_view(out@);
        let ghost at = i as int;
        assert(all[at] == fields@[at]@);
        if fields[i].as_str().is_empty() {
            i += 1;
            continue ;
        }
        let columns = split_at_char(fields[i].as_str(), '\t');
        let ghost cols = strs(columns@);
        assert(columns@.len() == cols.len());
        if columns.len() < 2 {
            i += 1;
            continue ;
        }
        assert(cols[0] == columns@[0]@ && cols[1] == columns@[1]@);
        let stat: Stat = match (
            parse_u64(columns[0].as_str(), u32::MAX as u64),
            parse_u64(columns[1].as_str(), u32::MAX as u64),
        ) {
            (Some(a), Some(d)) => Some((a as u32, d as u32)),
            _ => None,
        };
        let path: String;
        if columns.len() > 2 && !columns[2].as_str().is_empty() {
            assert(cols[2] == columns@[2]@);
            path = copy(columns[2].as_str());
            i += 1;
        } else {
            proof {
                if columns@.len() > 2 {
                    assert(cols[2] == columns@[2]@);
                }
            }
            if fields.len() - i <= 2 {
                assert(numstat(all, at) =~= Seq::empty());
                assert(done + Seq::<(Seq<char>, Stat)>::empty() =~= done);
                return out;
            }
            assert(all[at + 2] == fields@[at + 2]@);
            path = copy(fields[i + 2].as_str());
            i += 3;
        }
        proof {
            let item = (path@, stat);
            assert(numstat(all, at) == seq![item] + numstat(all, i as int));
            assert(done + (seq![item] + numstat(all, i as int)) =~= done.push(item) + numstat(
                all,
                i as int,
            ));
            lemma_stats_push(out@, (path, stat));
        }
        out.push((path, stat));
    }
    assert(stats_view(out@) + Seq::<(Seq<char>, Stat)>::empty() =~= stats_view(out@));
    out
}

// ---- line counts per path --------------------------------------------------

/// Counts by path; two paths are the same when their components are.
pub open spec fn add_stat(old_stat: Stat, stat: Stat) -> Stat {
    match (old_stat, stat) {
        (Some((a1, d1)), Some((a2, d2))) => Some(((a1 + a2) as u32, (d1 + d2) as u32)),
        _ => None,
    }
}

/// The two counts can be added up.
pub open spec fn stat_fits(old_stat: Stat, stat: Stat) -> bool {
    match (old_stat, stat) {
        (Some((a1, d1)), Some((a2, d2))) => a1 + a2 <= u32::MAX && d1 + d2 <= u32::MAX,
        _ => true,
    }
}

/// What is counted for `path` so far: nothing yet is zero lines.
pub open spec fn stat_at(m: Map<Seq<Part>, Stat>, path: Seq<char>) -> Stat {
    if m.contains_key(components(path)) {
        m[components(path)]
    } else {
        Some((0u32, 0u32))
    }
}

/// Line counts by path.
#[derive(Debug)]
pub struct Stats {
    slots: Vec<(String, Stat)>,
}

impl View for Stats {
    type V = Map<Seq<Part>, Stat>;

    closed spec fn view(&self) -> Map<Seq<Part>, Stat> {
        slots_map(stats_view(self.slots@), self.slots@.len() as int)
    }
}

/// The map that the first `n` slots stand for; a path has one slot.
spec fn slots_map(slots: Seq<(Seq<char>, Stat)>, n: int) -> Map<Seq<Part>, Stat>
    decreases n,
{
    if n <= 0 {
        Map::empty()
    } else {
        slots_map(slots, n - 1).insert(components(slots[n - 1].0), slots[n - 1].1)
    }
}

spec fn distinct_slots(slots: Seq<(Seq<char>, Stat)>) -> bool {
    forall|i: int, j: int|
        0 <= i < j < slots.len() ==> components((#[trigger] slots[i]).0) != components(
            (#[trigger] slots[j]).0,
        )
}

proof fn lemma_slots_map(slots: Seq<(Seq<char>, Stat)>, n: int, k: Seq<Part>)
    requires
        0 <= n <= slots.len(),
        distinct_slots(slots),
    ensures
        slots_map(slots, n).contains_key(k) <==> exists|i: int|
            0 <= i < n && components((#[trigger] slots[i]).0) == k,
        forall|i: int|
            0 <= i < n && components((#[trigger] slots[i]).0) == k ==> slots_map(slots, n)[k]
                == slots[i].1,
    decreases n,
{
    if n > 0 {
        lemma_slots_map(slots, n - 1, k);
        if components(slots[n - 1].0) == k {
            assert(slots_map(slots, n).contains_key(k));
        }
    }
}

proof fn lemma_slots_update(slots: Seq<(Seq<char>, Stat)>, i: int, stat: Stat)
    requires
        distinct_slots(slots),
        0 <= i < slots.len(),
    ensures
        distinct_slots(slots.update(i, (slots[i].0, stat))),
        slots_map(slots.update(i, (slots[i].0, stat)), slots.len() as int) == slots_map(
            slots,
            slots.len() as int,
        ).insert(components(slots[i].0), stat),
{
    let new = slots.update(i, (slots[i].0, stat));
    let n = slots.len() as int;
    let a = slots_map(new, n);
    let b = slots_map(slots, n).insert(components(slots[i].0), stat);
    assert(distinct_slots(new)) by {
        assert forall|x: int, y: int| 0 <= x < y < new.len() implies components(
            (#[trigger] new[x]).0,
        ) != components((#[trigger] new[y]).0) by {
            assert(new[x].0 == slots[x].0 && new[y].0 == slots[y].0);
        }
    }
    assert forall|k: Seq<Part>|
        #![trigger a.dom().contains(k)]
        #![trigger b.dom().contains(k)]
        #![trigger a[k]]
        a.dom().contains(k) == b.dom().contains(k) && (a.dom().contains(k) ==> a[k] == b[k]) by {
        lemma_slots_map(new, n, k);
        lemma_slots_map(slots, n, k);
        if a.contains_key(k) {
            let j = choose|j: int| 0 <= j < n && components((#[trigger] new[j]).0) == k;
            assert(components(slots[j].0) == k);
        }
        if b.contains_key(k) {
            if k == components(slots[i].0) {
                assert(components(new[i].0) == k);
            } else {
                let j = choose|j: int| 0 <= j < n && components((#[trigger] slots[j]).0) == k;
                assert(components(new[j].0) == k);
            }
        }
    }
    assert(a =~= b);
}

proof fn lemma_slots_extend(slots: Seq<(Seq<char>, Stat)>, item: (Seq<char>, Stat), n: int)
    requires
        0 <= n <= slots.len(),
    ensures
        slots_map(slots.push(item), n) == slots_map(slots, n),
    decreases n,
{
    if n > 0 {
        lemma_slots_extend(slots, item, n - 1);
    }
}

impl Stats {
    #[verifier::type_invariant]
    closed spec fn inv(self) -> bool {
        distinct_slots(stats_view(self.slots@))
    }

    pub fn new() -> (r: Stats)
        ensures
            r@ == Map::<Seq<Part>, Stat>::empty(),
    {
        Stats { slots: Vec::new() }
    }

    fn find(&self, path: &str) -> (r: Option<usize>)
        ensures
            match r {
                Some(i) => i < self.slots@.len() && same_path(self.slots@[i as int].0@, path@),
                None => forall|i: int|
                    0 <= i < self.slots@.len() ==> !same_path(
                        (#[trigger] self.slots@[i]).0@,
                        path@,
                    ),
            },
    {
        let mut i: usize = 0;
        while i < self.slots.len()
            invariant
                i <= self.slots@.len(),
                forall|k: int|
                    0 <= k < i ==> !same_path((#[trigger] self.slots@[k]).0@, path@),
            decreases self.slots@.len() - i,
        {
            if path_eq(self.slots[i].0.as_str(), path) {
                return Some(i);
            }
            i += 1;
        }
        None
    }

    /// The counts of `path`.
    pub fn get(&self, path: &str) -> (r: Option<Stat>)
        ensures
            r == if self@.contains_key(components(path@)) {
                Some(self@[components(path@)])
            } else {
                None
            },
    {
        proof {
            use_type_invariant(self);
            lemma_slots_map(
                stats_view(self.slots@),
                self.slots@.len() as int,
                components(path@),
            );
        }
        let ghost slots = stats_view(self.slots@);
        match self.find(path) {
            Some(i) => {
                assert(slots[i as int] == (self.slots@[i as int].0@, self.slots@[i as int].1));
                Some(self.slots[i].1)
            },
            None => {
                proof {
                    if self@.contains_key(components(path@)) {
                        let j = choose|j: int|
                            0 <= j < slots.len() && components((#[trigger] slots[j]).0)
                                == components(path@);
                        assert(slots[j].0 == self.slots@[j].0@);
                    }
                }
                None
            },
        }
    }
}

/// Add the counts of one path; a binary file makes the sum binary.
pub fn merge_stat(stats: &mut Stats, path: String, stat: Stat)
    requires
        stat_fits(stat_at(old(stats)@, path@), stat),
    ensures
        final(stats)@ == old(stats)@.insert(
            components(path@),
            add_stat(stat_at(old(stats)@, path@), stat),
        ),
{
    proof {
        use_type_invariant(&*stats);
    }
    let known = stats.get(path.as_str());
    let so_far: Stat = match known {
        Some(s) => s,
        None => Some((0, 0)),
    };
    let sum: Stat = match (so_far, stat) {
        (Some((a1, d1)), Some((a2, d2))) => Some((a1 + a2, d1 + d2)),
        _ => None,
    };
    let ghost slots = stats_view(stats.slots@);
    let ghost n = slots.len() as int;
    match stats.find(path.as_str()) {
        Some(i) => {
            proof {
                lemma_slots_update(slots, i as int, sum);
                assert(slots[i as int].0 == stats.slots@[i as int].0@);
            }
            let key = copy(stats.slots[i].0.as_str());
            let mut fresh: Vec<(String, Stat)> = Vec::new();
            std::mem::swap(&mut fresh, &mut stats.slots);
            fresh.set(i, (key, sum));
            assert(stats_view(fresh@) =~= slots.update(i as int, (slots[i as int].0, sum)));
            stats.slots = fresh;
        },
        None => {
            let ghost item = (path@, sum);
            proof {
                lemma_slots_extend(slots, item, n);
                lemma_stats_push(stats.slots@, (path, sum));
                assert(distinct_slots(slots.push(item))) by {
                    assert forall|x: int, y: int| 0 <= x < y < slots.push(item).len() implies
                        components((#[trigger] slots.push(item)[x]).0) != components(
                        (#[trigger] slots.push(item)[y]).0,
                    ) by {
                        if y == n {
                            assert(slots[x].0 == stats.slots@[x].0@);
                        } else {
                            assert(slots[x].0 != slots[y].0);
                        }
                    }
                }
            }
            let mut fresh: Vec<(String, Stat)> = Vec::new();
            std::mem::swap(&mut fresh, &mut stats.slots);
            fresh.push((path, sum));
            stats.slots = fresh;
        },
    }
}

// ---- order of the list -----------------------------------------------------

/// Conflicted entries first, then by path.
pub open spec fn entry_le(a: EntryView, b: EntryView) -> bool {
    let ca = a.kind == ChangeKind::Conflicted;
    let cb = b.kind == ChangeKind::Conflicted;
    if ca != cb {
        ca
    } else {
        order_paths(a.path, b.path) <= 0
    }
}

/// `e` put behind the last entry of `s` that may stand before it.
pub open spec fn insert_sorted(s: Seq<EntryView>, e: EntryView) -> Seq<EntryView>
    decreases s.len(),
{
    if s.len() == 0 || entry_le(s.last(), e) {
        s.push(e)
    } else {
        insert_sorted(s.drop_last(), e).push(s.last())
    }
}

/// The entries in order; entries that tie keep their order.
pub open spec fn sorted_entries(s: Seq<EntryView>) -> Seq<EntryView>
    decreases s.len(),
{
    if s.len() == 0 {
        s
    } else {
        insert_sorted(sorted_entries(s.drop_last()), s.last())
    }
}

pub open spec fn in_order(s: Seq<EntryView>) -> bool {
    forall|i: int, j: int| 0 <= i < j < s.len() ==> entry_le(#[trigger] s[i], #[trigger] s[j])
}

proof fn lemma_entry_le(a: EntryView, b: EntryView, c: EntryView)
    ensures
        entry_le(a, b) || entry_le(b, a),
        entry_le(a, a),
        entry_le(a, b) && entry_le(b, c) ==> entry_le(a, c),
{
    lemma_order_parts_flip(components(a.path), components(b.path));
    lemma_order_parts_flip(components(a.path), components(a.path));
    lemma_order_parts_flip(components(b.path), components(c.path));
    if order_paths(a.path, b.path) <= 0 && order_paths(b.path, c.path) <= 0 {
        lemma_order_parts_trans(components(a.path), components(b.path), components(c.path));
    }
}

proof fn lemma_insert_sorted(s: Seq<EntryView>, e: EntryView)
    requires
        in_order(s),
    ensures
        in_order(insert_sorted(s, e)),
        insert_sorted(s, e).len() == s.len() + 1,
        forall|x: EntryView|
            #[trigger] insert_sorted(s, e).contains(x) ==> x == e || s.contains(x),
    decreases s.len(),
{
    let r = insert_sorted(s, e);
    if s.len() == 0 || entry_le(s.last(), e) {
        assert forall|i: int, j: int| 0 <= i < j < r.len() implies entry_le(
            #[trigger] r[i],
            #[trigger] r[j],
        ) by {
            if j == s.len() {
                lemma_entry_le(s[i], s.last(), e);
                if i < s.len() - 1 {
                    assert(entry_le(s[i], s[s.len() - 1]));
                }
            }
        }
        assert forall|x: EntryView| #[trigger] r.contains(x) implies x == e || s.contains(x) by {
            let k = choose|k: int| 0 <= k < r.len() && r[k] == x;
            if k < s.len() {
                assert(s[k] == x);
            }
        }
    } else {
        let t = insert_sorted(s.drop_last(), e);
        lemma_insert_sorted(s.drop_last(), e);
        assert forall|i: int, j: int| 0 <= i < j < r.len() implies entry_le(
            #[trigger] r[i],
            #[trigger] r[j],
        ) by {
            if j == r.len() - 1 {
                assert(r[i] == t[i]);
                assert(t.contains(t[i]));
                lemma_entry_le(s.last(), e, e);
                if t[i] != e {
                    let k = choose|k: int|
                        0 <= k < s.drop_last().len() && s.drop_last()[k] == t[i];
                    assert(s[k] == t[i]);
                    assert(entry_le(s[k], s[s.len() - 1]));
                }
            } else {
                assert(r[i] == t[i] && r[j] == t[j]);
            }
        }
        assert forall|x: EntryView| #[trigger] r.contains(x) implies x == e || s.contains(x) by {
            let k = choose|k: int| 0 <= k < r.len() && r[k] == x;
            if k < t.len() {
                assert(t[k] == x);
                assert(t.contains(x));
                if x != e {
                    let m = choose|m: int| 0 <= m < s.drop_last().len() && s.drop_last()[m] == x;
                    assert(s[m] == x);
                }
            } else {
                assert(s[s.len() - 1] == x);
            }
        }
    }
}

/// The list is in order: conflicted entries first, then by path.
pub proof fn law_sorted_entries_are_in_order(s: Seq<EntryView>)
    ensures
        in_order(sorted_entries(s)),
    decreases s.len(),
{
    if s.len() > 0 {
        law_sorted_entries_are_in_order(s.drop_last());
        lemma_insert_sorted(sorted_entries(s.drop_last()), s.last());
    }
}

proof fn lemma_insert_permutes(s: Seq<EntryView>, e: EntryView)
    ensures
        insert_sorted(s, e).to_multiset() =~= s.to_multiset().insert(e),
    decreases s.len(),
{
    broadcast use vstd::seq_lib::group_to_multiset_ensures;

    if !(s.len() == 0 || entry_le(s.last(), e)) {
        lemma_insert_permutes(s.drop_last(), e);
        assert(s =~= s.drop_last().push(s.last()));
    }
}

/// Sorting loses and adds nothing.
pub proof fn law_sorting_permutes(s: Seq<EntryView>)
    ensures
        sorted_entries(s).to_multiset() =~= s.to_multiset(),
    decreases s.len(),
{
    broadcast use vstd::seq_lib::group_to_multiset_ensures;

    if s.len() > 0 {
        law_sorting_permutes(s.drop_last());
        lemma_insert_permutes(sorted_entries(s.drop_last()), s.last());
        assert(s =~= s.drop_last().push(s.last()));
    }
}

/// Entries that tie with `e`.
pub open spec fn ties_with(e: EntryView) -> spec_fn(EntryView) -> bool {
    |x: EntryView| entry_le(x, e) && entry_le(e, x)
}

proof fn lemma_filter_push<A>(s: Seq<A>, x: A, p: spec_fn(A) -> bool)
    ensures
        s.push(x).filter(p) == if p(x) {
            s.filter(p).push(x)
        } else {
            s.filter(p)
        },
{
    reveal(Seq::filter);
    assert(s.push(x).drop_last() =~= s);
}

proof fn lemma_insert_stable(s: Seq<EntryView>, e: EntryView, k: EntryView)
    ensures
        insert_sorted(s, e).filter(ties_with(k)) == s.push(e).filter(ties_with(k)),
    decreases s.len(),
{
    let p = ties_with(k);
    if !(s.len() == 0 || entry_le(s.last(), e)) {
        let rest = s.drop_last();
        lemma_insert_stable(rest, e, k);
        lemma_filter_push(insert_sorted(rest, e), s.last(), p);
        lemma_filter_push(rest, e, p);
        lemma_filter_push(s, e, p);
        assert(s =~= rest.push(s.last()));
        lemma_filter_push(rest, s.last(), p);
        lemma_entry_le(s.last(), k, e);
    }
}

/// Entries that tie keep their order.
pub proof fn law_sorting_is_stable(s: Seq<EntryView>, k: EntryView)
    ensures
        sorted_entries(s).filter(ties_with(k)) == s.filter(ties_with(k)),
    decreases s.len(),
{
    let p = ties_with(k);
    if s.len() > 0 {
        let rest = s.drop_last();
        law_sorting_is_stable(rest, k);
        lemma_insert_stable(sorted_entries(rest), s.last(), k);
        lemma_filter_push(sorted_entries(rest), s.last(), p);
        lemma_filter_push(rest, s.last(), p);
        assert(s =~= rest.push(s.last()));
    }
}

proof fn lemma_insert_at(s: Seq<EntryView>, e: EntryView, k: int)
    requires
        0 <= k <= s.len(),
        k > 0 ==> entry_le(s[k - 1], e),
        forall|i: int| k <= i < s.len() ==> !entry_le(#[trigger] s[i], e),
    ensures
        insert_sorted(s, e) == s.insert(k, e),
    decreases s.len() - k,
{
    if k == s.len() {
        assert(s.insert(k, e) =~= s.push(e));
    } else {
        lemma_insert_at(s.drop_last(), e, k);
        assert(s.insert(k, e) =~= s.drop_last().insert(k, e).push(s.last()));
    }
}

fn may_precede(a: &FileEntry, b: &FileEntry) -> (r: bool)
    ensures
        r == entry_le(a@, b@),
{
    let ca = a.kind == ChangeKind::Conflicted;
    let cb = b.kind == ChangeKind::Conflicted;
    if ca != cb {
        ca
    } else {
        path_order(a.path.as_str(), b.path.as_str()) <= 0
    }
}

fn put_in_order(out: &mut Vec<FileEntry>, e: FileEntry)
    ensures
        entries_view(final(out)@) == insert_sorted(entries_view(old(out)@), e@),
{
    let ghost s = entries_view(out@);
    let mut k: usize = out.len();
    while k > 0 && !may_precede(&out[k - 1], &e)
        invariant
            k <= out@.len(),
            s == entries_view(out@),
            out@ == old(out)@,
            forall|i: int| k <= i < s.len() ==> !entry_le(#[trigger] s[i], e@),
        decreases k,
    {
        assert(s[k - 1] == out@[k - 1]@);
        k -= 1;
    }
    proof {
        if k > 0 {
            assert(s[k - 1] == out@[k - 1]@);
        }
        lemma_insert_at(s, e@, k as int);
    }
    out.insert(k, e);
    assert(entries_view(out@) =~= s.insert(k as int, e@));
}

/// Conflicted first, then lexicographic by path, component by component.
pub fn sort_entries(entries: &mut Vec<FileEntry>)
    ensures
        entries_view(final(entries)@) == sorted_entries(entries_view(old(entries)@)),
{
    let ghost all = entries_view(entries@);
    let mut rest: Vec<FileEntry> = Vec::new();
    std::mem::swap(&mut rest, entries);
    let mut out: Vec<FileEntry> = Vec::new();
    let n = rest.len();
    let mut i: usize = 0;
    assert(all.take(0) =~= Seq::<EntryView>::empty());
    assert(entries_view(out@) =~= Seq::<EntryView>::empty());
    while i < n
        invariant
            i <= n,
            n == all.len(),
            rest@.len() == n,
            entries_view(rest@) == all,
            entries_view(out@) == sorted_entries(all.take(i as int)),
        decreases n - i,
    {
        assert(all[i as int] == rest@[i as int]@);
        assert(all.take(i + 1).drop_last() =~= all.take(i as int));
        put_in_order(&mut out, rest[i].clone());
        i += 1;
    }
    assert(all.take(n as int) =~= all);
    *entries = out;
}

// ---- line counts of the entries --------------------------------------------

/// `e` with the counts that are known of its path.
pub open spec fn counted(e: EntryView, stats: Map<Seq<Part>, Stat>) -> EntryView {
    if stats.contains_key(components(e.path)) {
        match stats[components(e.path)] {
            Some((a, d)) => EntryView { adds: Some(a), dels: Some(d), ..e },
            None => EntryView { adds: None, dels: None, ..e },
        }
    } else {
        e
    }
}

/// The sums of `list[..n]` on top of `m`.
pub open spec fn merged(
    m: Map<Seq<Part>, Stat>,
    list: Seq<(Seq<char>, Stat)>,
    n: int,
) -> Result<Map<Seq<Part>, Stat>, ParseError>
    decreases n,
{
    if n <= 0 {
        Ok(m)
    } else {
        match merged(m, list, n - 1) {
            Ok(sums) => {
                let (path, stat) = list[n - 1];
                if stat_fits(stat_at(sums, path), stat) {
                    Ok(sums.insert(components(path), add_stat(stat_at(sums, path), stat)))
                } else {
                    Err(ParseError::StatOverflow)
                }
            },
            Err(e) => Err(e),
        }
    }
}

fn fits(old_stat: Stat, stat: Stat) -> (r: bool)
    ensures
        r == stat_fits(old_stat, stat),
{
    match (old_stat, stat) {
        (Some((a1, d1)), Some((a2, d2))) => a1 <= u32::MAX - a2 && d1 <= u32::MAX - d2,
        _ => true,
    }
}

/// Add the counts of a list of paths.
pub fn merge_stats(stats: &mut Stats, list: &Vec<(String, Stat)>) -> (r: Result<(), ParseError>)
    ensures
        match r {
            Ok(_) => merged(old(stats)@, stats_view(list@), list@.len() as int) == Ok::<
                Map<Seq<Part>, Stat>,
                ParseError,
            >(final(stats)@),
            Err(e) => merged(old(stats)@, stats_view(list@), list@.len() as int) == Err::<
                Map<Seq<Part>, Stat>,
                ParseError,
            >(e),
        },
{
    let ghost all = stats_view(list@);
    let mut i: usize = 0;
    while i < list.len()
        invariant
            i <= list@.len(),
            all == stats_view(list@),
            merged(old(stats)@, all, i as int) == Ok::<Map<Seq<Part>, Stat>, ParseError>(stats@),
        decreases list@.len() - i,
    {
        assert(all[i as int] == (list@[i as int].0@, list@[i as int].1));
        let path = list[i].0.as_str();
        let stat = list[i].1;
        let so_far: Stat = match stats.get(path) {
            Some(s) => s,
            None => Some((0, 0)),
        };
        if !fits(so_far, stat) {
            proof {
                lemma_merged_err(old(stats)@, all, i + 1, all.len() as int);
            }
            return Err(ParseError::StatOverflow);
        }
        merge_stat(stats, copy(path), stat);
        i += 1;
    }
    Ok(())
}

proof fn lemma_merged_err(
    m: Map<Seq<Part>, Stat>,
    list: Seq<(Seq<char>, Stat)>,
    i: int,
    n: int,
)
    requires
        0 <= i <= n,
        merged(m, list, i) is Err,
    ensures
        merged(m, list, n) == merged(m, list, i),
    decreases n - i,
{
    if i < n {
        lemma_merged_err(m, list, i, n - 1);
    }
}

/// What a list of counts says of one path: how often it is named, how often
/// without counts, and the sums of the others.
pub struct Tally {
    pub times: nat,
    pub binary: nat,
    pub adds: nat,
    pub dels: nat,
}

/// `t` and one more pair of a list, where it is for path `p`.
pub open spec fn tallied(t: Tally, pair: (Seq<char>, Stat), p: Seq<Part>) -> Tally {
    if components(pair.0) != p {
        t
    } else {
        match pair.1 {
            None => Tally { times: t.times + 1, binary: t.binary + 1, ..t },
            Some((a, d)) => Tally {
                times: t.times + 1,
                adds: t.adds + a as nat,
                dels: t.dels + d as nat,
                ..t
            },
        }
    }
}

/// What `list` says of path `p`.
pub open spec fn tally(list: Seq<(Seq<char>, Stat)>, p: Seq<Part>) -> Tally
    decreases list.len(),
{
    if list.len() == 0 {
        Tally { times: 0, binary: 0, adds: 0, dels: 0 }
    } else {
        tallied(tally(list.drop_last(), p), list.last(), p)
    }
}

/// The counts of a path: none where any are missing, else the sums.
pub open spec fn total(t: Tally) -> Stat {
    if t.binary > 0 {
        None
    } else {
        Some((t.adds as u32, t.dels as u32))
    }
}

/// No sum is too large to be counted.
pub open spec fn sums_fit(list: Seq<(Seq<char>, Stat)>) -> bool {
    forall|p: Seq<Part>|
        (#[trigger] tally(list, p)).adds <= u32::MAX && tally(list, p).dels <= u32::MAX
}

/// The counts by path that a list adds up to.
pub open spec fn totals(list: Seq<(Seq<char>, Stat)>) -> Map<Seq<Part>, Stat> {
    Map::new(|p: Seq<Part>| tally(list, p).times > 0, |p: Seq<Part>| total(tally(list, p)))
}

proof fn lemma_tally_grows(list: Seq<(Seq<char>, Stat)>)
    requires
        list.len() > 0,
        sums_fit(list),
    ensures
        sums_fit(list.drop_last()),
{
    let before = list.drop_last();
    assert forall|p: Seq<Part>|
        (#[trigger] tally(before, p)).adds <= u32::MAX && tally(before, p).dels <= u32::MAX by {
        assert(tally(list, p) == tallied(tally(before, p), list.last(), p));
    }
}

proof fn lemma_untouched_is_zero(list: Seq<(Seq<char>, Stat)>, p: Seq<Part>)
    requires
        tally(list, p).times == 0,
    ensures
        tally(list, p) == (Tally { times: 0, binary: 0, adds: 0, dels: 0 }),
    decreases list.len(),
{
    if list.len() > 0 {
        lemma_untouched_is_zero(list.drop_last(), p);
    }
}

proof fn lemma_merged_prefix(
    m: Map<Seq<Part>, Stat>,
    a: Seq<(Seq<char>, Stat)>,
    b: Seq<(Seq<char>, Stat)>,
    n: int,
)
    requires
        0 <= n <= a.len(),
        n <= b.len(),
        a.take(n) == b.take(n),
    ensures
        merged(m, a, n) == merged(m, b, n),
    decreases n,
{
    if n > 0 {
        assert(a.take(n - 1) =~= a.take(n).take(n - 1));
        assert(b.take(n - 1) =~= b.take(n).take(n - 1));
        lemma_merged_prefix(m, a, b, n - 1);
        assert(a[n - 1] == a.take(n)[n - 1]);
        assert(b[n - 1] == b.take(n)[n - 1]);
    }
}

/// The counts of a list are summed per path: exactly its paths have counts, a
/// path has none once any are missing, and the sums of the others otherwise.
pub proof fn law_counts_are_summed_per_path(list: Seq<(Seq<char>, Stat)>)
    requires
        sums_fit(list),
    ensures
        merged(Map::empty(), list, list.len() as int) == Ok::<Map<Seq<Part>, Stat>, ParseError>(
            totals(list),
        ),
    decreases list.len(),
{
    let none = Map::<Seq<Part>, Stat>::empty();
    if list.len() == 0 {
        assert(totals(list) =~= none);
    } else {
        let before = list.drop_last();
        let (path, stat) = list.last();
        let p = components(path);
        lemma_tally_grows(list);
        law_counts_are_summed_per_path(before);
        assert(before.take(before.len() as int) =~= list.take(before.len() as int));
        lemma_merged_prefix(none, before, list, before.len() as int);
        let sums = totals(before);
        if tally(before, p).times == 0 {
            lemma_untouched_is_zero(before, p);
        }
        assert(stat_at(sums, path) == total(tally(before, p)));
        assert(tally(list, p) == tallied(tally(before, p), list.last(), p));
        assert(tally(list, p).adds <= u32::MAX && tally(list, p).dels <= u32::MAX);
        assert(stat_fits(stat_at(sums, path), stat));
        assert(add_stat(stat_at(sums, path), stat) == total(tally(list, p)));
        assert(totals(list) =~= sums.insert(p, add_stat(stat_at(sums, path), stat)));
    }
}

proof fn lemma_tally_remove(list: Seq<(Seq<char>, Stat)>, k: int, p: Seq<Part>)
    requires
        0 <= k < list.len(),
    ensures
        tally(list, p) == tallied(tally(list.remove(k), p), list[k], p),
    decreases list.len(),
{
    if k == list.len() - 1 {
        assert(list.remove(k) =~= list.drop_last());
    } else {
        let before = list.drop_last();
        lemma_tally_remove(before, k, p);
        assert(list.remove(k).drop_last() =~= before.remove(k));
        assert(list.remove(k).last() == list.last());
    }
}

proof fn lemma_tally_of_permuted(
    a: Seq<(Seq<char>, Stat)>,
    b: Seq<(Seq<char>, Stat)>,
    p: Seq<Part>,
)
    requires
        a.to_multiset() == b.to_multiset(),
    ensures
        tally(a, p) == tally(b, p),
    decreases a.len(),
{
    broadcast use vstd::seq_lib::group_to_multiset_ensures;

    assert(a.len() == a.to_multiset().len());
    assert(b.len() == b.to_multiset().len());
    if a.len() > 0 {
        let x = a.last();
        assert(a.contains(x)) by {
            assert(a[a.len() - 1] == x);
        }
        assert(a.to_multiset().count(x) > 0);
        assert(b.contains(x));
        let k = choose|k: int| 0 <= k < b.len() && b[k] == x;
        let n = a.len() - 1;
        assert(a.remove(n) =~= a.drop_last());
        assert(a.drop_last().to_multiset() =~= b.remove(k).to_multiset());
        lemma_tally_of_permuted(a.drop_last(), b.remove(k), p);
        lemma_tally_remove(b, k, p);
    }
}

/// What the counts add up to does not depend on the order in which they come.
pub proof fn law_counts_do_not_depend_on_the_order(
    a: Seq<(Seq<char>, Stat)>,
    b: Seq<(Seq<char>, Stat)>,
)
    requires
        sums_fit(a),
        a.to_multiset() == b.to_multiset(),
    ensures
        merged(Map::empty(), a, a.len() as int) == merged(Map::empty(), b, b.len() as int),
        merged(Map::empty(), b, b.len() as int) is Ok,
{
    assert forall|p: Seq<Part>| #[trigger] tally(b, p) == tally(a, p) by {
        lemma_tally_of_permuted(a, b, p);
    }
    assert forall|p: Seq<Part>|
        (#[trigger] tally(b, p)).adds <= u32::MAX && tally(b, p).dels <= u32::MAX by {
        assert(tally(b, p) == tally(a, p));
    }
    law_counts_are_summed_per_path(a);
    law_counts_are_summed_per_path(b);
    assert(totals(a) =~= totals(b));
}

/// Set an entry's counts from the known counts of its path.
pub fn count_entry(e: &mut FileEntry, stats: &Stats)
    ensures
        final(e)@ == counted(old(e)@, stats@),
{
    match stats.get(e.path.as_str()) {
        Some(Some((a, d))) => {
            e.adds = Some(a);
            e.dels = Some(d);
        },
        Some(None) => {
            e.adds = None;
            e.dels = None;
        },
        None => {},
    }
}

/// Largest untracked file whose lines are counted, in bytes.
pub const MAX_COUNTED: usize = 1048576;

/// Bytes at a file's start that tell a binary file by a NUL.
pub const BINARY_PROBE: usize = 8192;

/// Line feeds in `bytes[..n]`.
pub open spec fn line_feeds(bytes: Seq<u8>, n: int) -> nat
    decreases n,
{
    if n <= 0 {
        0
    } else {
        line_feeds(bytes, n - 1) + if bytes[n - 1] == 10 {
            1nat
        } else {
            0
        }
    }
}

/// Whether a NUL is among the first bytes.
pub open spec fn looks_binary(bytes: Seq<u8>) -> bool {
    exists|i: int| 0 <= i < bytes.len() && i < BINARY_PROBE && #[trigger] bytes[i] == 0
}

/// The counts of an untracked file: every line is an add, the unterminated
/// last one too. There are none for a file that cannot be read, is too large
/// or binary.
pub open spec fn untracked_counts(content: Option<Seq<u8>>) -> (Option<u32>, Option<u32>) {
    match content {
        None => (None, None),
        Some(bytes) => if bytes.len() > MAX_COUNTED || looks_binary(bytes) {
            (None, None)
        } else {
            let n = line_feeds(bytes, bytes.len() as int);
            if bytes.len() > 0 && bytes.last() != 10 {
                (Some((n + 1) as u32), Some(0u32))
            } else {
                (Some(n as u32), Some(0u32))
            }
        },
    }
}

pub open spec fn opt_bytes(b: Option<Vec<u8>>) -> Option<Seq<u8>> {
    match b {
        Some(v) => Some(v@),
        None => None,
    }
}

proof fn lemma_line_feeds(bytes: Seq<u8>, n: int)
    requires
        0 <= n <= bytes.len(),
    ensures
        line_feeds(bytes, n) <= n,
    decreases n,
{
    if n > 0 {
        lemma_line_feeds(bytes, n - 1);
    }
}

/// Line counts of an untracked file, from its content.
pub fn untracked_stats(content: &Option<Vec<u8>>) -> (r: (Option<u32>, Option<u32>))
    ensures
        r == untracked_counts(opt_bytes(*content)),
{
    match content {
        None => (None, None),
        Some(bytes) => {
            if bytes.len() > MAX_COUNTED {
                return (None, None);
            }
            let mut lines: u32 = 0;
            let mut i: usize = 0;
            while i < bytes.len()
                invariant
                    i <= bytes@.len() <= MAX_COUNTED,
                    lines == line_feeds(bytes@, i as int),
                    lines <= i,
                    opt_bytes(*content) == Some(bytes@),
                    forall|k: int| 0 <= k < i && k < BINARY_PROBE ==> #[trigger] bytes@[k] != 0,
                decreases bytes@.len() - i,
            {
                if i < BINARY_PROBE && bytes[i] == 0 {
                    assert(bytes@[i as int] == 0);
                    return (None, None);
                }
                if bytes[i] == 10 {
                    lines += 1;
                }
                i += 1;
            }
            proof {
                lemma_line_feeds(bytes@, bytes@.len() as int);
            }
            if bytes.len() > 0 && bytes[bytes.len() - 1] != 10 {
                lines += 1;
            }
            (Some(lines), Some(0))
        },
    }
}

// ---- what is counted ---------------------------------------------------------

/// Each part with the byte behind it.
pub open spec fn ended_by(parts: Seq<Seq<u8>>, end: u8) -> Seq<u8>
    decreases parts.len(),
{
    if parts.len() == 0 {
        Seq::empty()
    } else {
        ended_by(parts.drop_last(), end) + parts.last().push(end)
    }
}

proof fn lemma_line_feeds_within(a: Seq<u8>, b: Seq<u8>, n: int)
    requires
        0 <= n <= a.len(),
        n <= b.len(),
        a.take(n) =~= b.take(n),
    ensures
        line_feeds(a, n) == line_feeds(b, n),
    decreases n,
{
    if n > 0 {
        assert(a.take(n)[n - 1] == b.take(n)[n - 1]);
        assert(a.take(n - 1) =~= a.take(n).take(n - 1));
        assert(b.take(n - 1) =~= b.take(n).take(n - 1));
        lemma_line_feeds_within(a, b, n - 1);
    }
}

proof fn lemma_no_line_feeds(a: Seq<u8>, from: int, n: int)
    requires
        0 <= from <= n <= a.len(),
        forall|k: int| from <= k < n ==> #[trigger] a[k] != 10,
    ensures
        line_feeds(a, n) == line_feeds(a, from),
    decreases n - from,
{
    if from < n {
        lemma_no_line_feeds(a, from, n - 1);
    }
}

proof fn lemma_line_feeds_of_lines(ls: Seq<Seq<u8>>, rest: Seq<u8>)
    requires
        forall|i: int| 0 <= i < ls.len() ==> !(#[trigger] ls[i]).contains(10),
        !rest.contains(10),
    ensures
        line_feeds(ended_by(ls, 10) + rest, (ended_by(ls, 10) + rest).len() as int) == ls.len(),
    decreases ls.len(),
{
    let text = ended_by(ls, 10);
    let whole = text + rest;
    assert forall|k: int| text.len() <= k < whole.len() implies #[trigger] whole[k] != 10 by {
        assert(rest.contains(rest[k - text.len()]));
    }
    lemma_no_line_feeds(whole, text.len() as int, whole.len() as int);
    if ls.len() > 0 {
        let init = ls.drop_last();
        let last = ls.last();
        assert(last == ls[ls.len() - 1]);
        assert forall|i: int| 0 <= i < init.len() implies !(#[trigger] init[i]).contains(10) by {
            assert(init[i] == ls[i]);
        }
        lemma_line_feeds_of_lines(init, last);
        let open = ended_by(init, 10) + last;
        let n = open.len() as int;
        assert(text =~= open.push(10));
        assert(whole.take(n) =~= open.take(n));
        lemma_line_feeds_within(whole, open, n);
        assert(whole[n] == 10);
        assert(line_feeds(whole, n + 1) == line_feeds(whole, n) + 1);
        assert(text.len() == n + 1);
    }
}

/// An untracked file adds as many lines as it has, an unterminated last one
/// counted in, and removes none. Nothing is known of one that cannot be read, is
/// larger than a mebibyte, or has a NUL near its start.
pub proof fn law_untracked_lines_are_counted(ls: Seq<Seq<u8>>, rest: Seq<u8>)
    requires
        forall|i: int| 0 <= i < ls.len() ==> !(#[trigger] ls[i]).contains(10),
        !rest.contains(10),
    ensures
        ({
            let bytes = ended_by(ls, 10) + rest;
            let binary = exists|i: int| 0 <= i < bytes.len() && i < 8192 && bytes[i] == 0;
            let lines = if rest.len() > 0 {
                ls.len() + 1
            } else {
                ls.len()
            };
            &&& bytes.len() <= 1048576 && !binary ==> untracked_counts(Some(bytes)) == (
                Some(lines as u32),
                Some(0u32),
            )
            &&& bytes.len() > 1048576 || binary ==> untracked_counts(Some(bytes)) == (
                None::<u32>,
                None::<u32>,
            )
        }),
        untracked_counts(None) == (None::<u32>, None::<u32>),
{
    let text = ended_by(ls, 10);
    let bytes = text + rest;
    lemma_line_feeds_of_lines(ls, rest);
    if rest.len() > 0 {
        assert(bytes.last() == rest.last());
        assert(rest.contains(rest[rest.len() - 1]));
    } else if ls.len() > 0 {
        assert(bytes =~= text);
        assert(bytes.last() == 10);
    } else {
        assert(bytes.len() == 0);
    }
}

proof fn lemma_tally_apart(list: Seq<(Seq<char>, Stat)>, p: Seq<Part>)
    requires
        forall|i: int| 0 <= i < list.len() ==> components((#[trigger] list[i]).0) != p,
    ensures
        tally(list, p) == (Tally { times: 0, binary: 0, adds: 0, dels: 0 }),
    decreases list.len(),
{
    if list.len() > 0 {
        assert(components(list[list.len() - 1].0) != p);
        assert forall|i: int| 0 <= i < list.len() - 1 implies components(
            (#[trigger] list.drop_last()[i]).0,
        ) != p by {
            assert(list[i] == list.drop_last()[i]);
        }
        lemma_tally_apart(list.drop_last(), p);
    }
}

proof fn lemma_tally_behind(
    a: Seq<(Seq<char>, Stat)>,
    b: Seq<(Seq<char>, Stat)>,
    p: Seq<Part>,
)
    requires
        forall|i: int| 0 <= i < b.len() ==> components((#[trigger] b[i]).0) != p,
    ensures
        tally(a + b, p) == tally(a, p),
    decreases b.len(),
{
    if b.len() == 0 {
        assert(a + b =~= a);
    } else {
        let init = b.drop_last();
        assert(components(b[b.len() - 1].0) != p);
        assert((a + b).drop_last() =~= a + init);
        assert forall|i: int| 0 <= i < init.len() implies components((#[trigger] init[i]).0) != p by {
            assert(b[i] == init[i]);
        }
        lemma_tally_behind(a, init, p);
    }
}

/// An entry gets the counts that git gives for its path, and an entry that git
/// gives none for keeps what it has.
pub proof fn law_an_entry_gets_the_counts_of_its_path(
    e: EntryView,
    a: Seq<(Seq<char>, Stat)>,
    stat: Stat,
    b: Seq<(Seq<char>, Stat)>,
)
    requires
        sums_fit(a.push((e.path, stat)) + b),
        sums_fit(a + b),
        forall|i: int| 0 <= i < a.len() ==> components((#[trigger] a[i]).0) != components(e.path),
        forall|i: int| 0 <= i < b.len() ==> components((#[trigger] b[i]).0) != components(e.path),
    ensures
        ({
            let list = a.push((e.path, stat)) + b;
            let sums = merged(Map::empty(), list, list.len() as int);
            sums is Ok && counted(e, sums->Ok_0) == (match stat {
                Some((adds, dels)) => EntryView { adds: Some(adds), dels: Some(dels), ..e },
                None => EntryView { adds: None, dels: None, ..e },
            })
        }),
        ({
            let list = a + b;
            let sums = merged(Map::empty(), list, list.len() as int);
            sums is Ok && counted(e, sums->Ok_0) == e
        }),
{
    let p = components(e.path);
    let own = a.push((e.path, stat));
    let list = own + b;
    law_counts_are_summed_per_path(list);
    lemma_tally_behind(own, b, p);
    assert(own.drop_last() =~= a);
    lemma_tally_apart(a, p);
    assert(tally(own, p) == tallied(tally(a, p), (e.path, stat), p));
    law_counts_are_summed_per_path(a + b);
    lemma_tally_behind(a, b, p);
}

} // verus!
