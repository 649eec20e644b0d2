//! The formats in which git answers, written out from the writer's side: what
//! is printed for a list of changes or commits, and that reading it gives that
//! list back.
use crate::git::{
    after_spaces, name_status, numstat, porcelain, ChangeKind, CommitView, EntryView, ParseError,
    StageState, Stat,
};
use crate::repo::{commits, log_args};
use crate::text::{
    dec, find_from, is_digit, is_space, law_terminated_texts_are_read_back,
    law_written_numbers_are_read_back, lemma_dec_is_plain, lemma_terminated_concat, none_holds,
    parse_unsigned, split, terminated, trim_start,
};
use vstd::prelude::*;

verus! {

// ---- git status --porcelain=v2 -z ----------------------------------------------

/// One record of `git status`. `x` and `y` are the letters of the index and of
/// the worktree, a dot where nothing changed; `meta` are the fields between
/// them and the path.
pub enum StatusRecord {
    Ordinary { x: char, y: char, meta: Seq<Seq<char>>, path: Seq<char> },
    Renamed { x: char, y: char, meta: Seq<Seq<char>>, path: Seq<char>, orig: Seq<char> },
    Unmerged { x: char, y: char, meta: Seq<Seq<char>>, path: Seq<char> },
    Untracked { path: Seq<char> },
    Ignored { path: Seq<char> },
    Header { text: Seq<char> },
}

/// A record of words with a path behind them.
pub open spec fn worded(words: Seq<Seq<char>>, path: Seq<char>) -> Seq<char> {
    terminated(words, ' ') + path
}

impl StatusRecord {
    /// The fields that are printed for the record.
    pub open spec fn fields(self) -> Seq<Seq<char>> {
        match self {
            StatusRecord::Ordinary { x, y, meta, path } => seq![
                worded(seq![seq!['1'], seq![x, y]] + meta, path),
            ],
            StatusRecord::Renamed { x, y, meta, path, orig } => seq![
                worded(seq![seq!['2'], seq![x, y]] + meta, path),
                orig,
            ],
            StatusRecord::Unmerged { x, y, meta, path } => seq![
                worded(seq![seq!['u'], seq![x, y]] + meta, path),
            ],
            StatusRecord::Untracked { path } => seq![worded(seq![seq!['?']], path)],
            StatusRecord::Ignored { path } => seq![worded(seq![seq!['!']], path)],
            StatusRecord::Header { text } => seq![worded(seq![seq!['#']], text)],
        }
    }

    /// As git prints it: words without blanks, no NUL anywhere, and as many
    /// fields before the path as the format has.
    pub open spec fn sound(self) -> bool {
        match self {
            StatusRecord::Ordinary { x, y, meta, path } => x != ' ' && y != ' ' && meta.len() == 6
                && none_holds(meta, ' ') && none_holds(self.fields(), '\0'),
            StatusRecord::Renamed { x, y, meta, path, orig } => x != ' ' && y != ' ' && meta.len()
                == 7 && none_holds(meta, ' ') && none_holds(self.fields(), '\0'),
            StatusRecord::Unmerged { x, y, meta, path } => x != ' ' && y != ' ' && meta.len() == 8
                && none_holds(meta, ' ') && none_holds(self.fields(), '\0'),
            _ => none_holds(self.fields(), '\0'),
        }
    }

    /// Whether the record is of a changed file.
    pub open spec fn is_change(self) -> bool {
        !(self is Ignored || self is Header)
    }
}

pub open spec fn status_fields(records: Seq<StatusRecord>) -> Seq<Seq<char>>
    decreases records.len(),
{
    if records.len() == 0 {
        Seq::empty()
    } else {
        records[0].fields() + status_fields(records.drop_first())
    }
}

/// What git prints for the records.
pub open spec fn status_text(records: Seq<StatusRecord>) -> Seq<char> {
    terminated(status_fields(records), '\0')
}

/// The records of changed files.
pub open spec fn changes(records: Seq<StatusRecord>) -> Seq<StatusRecord>
    decreases records.len(),
{
    if records.len() == 0 {
        Seq::empty()
    } else if records[0].is_change() {
        seq![records[0]] + changes(records.drop_first())
    } else {
        changes(records.drop_first())
    }
}

/// The stage that the two letters stand for.
pub open spec fn staged_as(e: EntryView, x: char, y: char) -> bool {
    &&& e.stage == StageState::Staged <==> x != '.' && y == '.'
    &&& e.stage == StageState::Partial <==> x != '.' && y != '.'
    &&& e.stage == StageState::Unstaged <==> x == '.'
}

/// Entry `e` says what the record says.
pub open spec fn says(e: EntryView, record: StatusRecord) -> bool {
    &&& e.adds is None && e.dels is None
    &&& match record {
        StatusRecord::Ordinary { x, y, path, .. } => {
            let letter = if x != '.' {
                x
            } else {
                y
            };
            &&& e.path == path && e.orig_path is None
            &&& e.kind == ChangeKind::Added <==> letter == 'A'
            &&& e.kind == ChangeKind::Deleted <==> letter == 'D'
            &&& e.kind == ChangeKind::Renamed <==> letter == 'R'
            &&& e.kind == ChangeKind::Modified <==> letter != 'A' && letter != 'D' && letter != 'R'
            &&& staged_as(e, x, y)
        },
        StatusRecord::Renamed { x, y, path, orig, .. } => {
            &&& e.path == path && e.orig_path == Some(orig)
            &&& e.kind == ChangeKind::Renamed
            &&& staged_as(e, x, y)
        },
        StatusRecord::Unmerged { path, .. } => {
            &&& e.path == path && e.orig_path is None
            &&& e.kind == ChangeKind::Conflicted && e.stage == StageState::NA
        },
        StatusRecord::Untracked { path } => {
            &&& e.path == path && e.orig_path is None
            &&& e.kind == ChangeKind::Untracked && e.stage == StageState::Untracked
        },
        _ => false,
    }
}

/// Where a character stands first.
proof fn lemma_found(s: Seq<char>, c: char, from: int, at: int)
    requires
        0 <= from <= at < s.len(),
        s[at] == c,
        forall|k: int| from <= k < at ==> s[k] != c,
    ensures
        find_from(s, c, from) == at,
    decreases at - from,
{
    if from < at {
        lemma_found(s, c, from + 1, at);
    }
}

/// The blank behind a word is found from the word's start on.
proof fn lemma_word_found(before: Seq<char>, word: Seq<char>, rest: Seq<char>)
    requires
        !word.contains(' '),
    ensures
        find_from(before + (word.push(' ') + rest), ' ', before.len() as int) == before.len()
            + word.len(),
{
    let s = before + (word.push(' ') + rest);
    let at = (before.len() + word.len()) as int;
    assert(s[at] == ' ');
    assert forall|k: int| before.len() <= k < at implies s[k] != ' ' by {
        assert(s[k] == word[k - before.len()]);
    }
    lemma_found(s, ' ', before.len() as int, at);
}

/// Behind the words comes the path.
proof fn lemma_behind_words(before: Seq<char>, words: Seq<Seq<char>>, path: Seq<char>)
    requires
        none_holds(words, ' '),
    ensures
        crate::git::after_spaces(
            before + worded(words, path),
            before.len() as int,
            words.len(),
        ) == Some((before.len() + terminated(words, ' ').len()) as int),
    decreases words.len(),
{
    let s = before + worded(words, path);
    if words.len() > 0 {
        let more = words.drop_first();
        let rest = worded(more, path);
        assert(s =~= before + (words[0].push(' ') + rest));
        lemma_word_found(before, words[0], rest);
        let next = before + words[0].push(' ');
        assert(s =~= next + rest);
        assert forall|i: int| 0 <= i < more.len() implies !(#[trigger] more[i]).contains(' ') by {
            assert(more[i] == words[i + 1]);
        }
        lemma_behind_words(next, more, path);
        assert(terminated(words, ' ').len() == words[0].len() + 1 + terminated(more, ' ').len());
        let i = find_from(s, ' ', before.len() as int);
        assert(i < s.len());
        assert(i + 1 == next.len());
    }
}

/// The letters and the path of a record are found.
proof fn lemma_ordinary(
    mark: char,
    x: char,
    y: char,
    meta: Seq<Seq<char>>,
    path: Seq<char>,
    n: nat,
)
    requires
        mark != ' ',
        x != ' ',
        y != ' ',
        none_holds(meta, ' '),
        n == meta.len() + 2,
    ensures
        ({
            let record = worded(seq![seq![mark], seq![x, y]] + meta, path);
            &&& record.len() > 0 && record[0] == mark
            &&& crate::git::ordinary(record, n) == Ok::<(Seq<char>, Seq<char>), ParseError>(
                (seq![x, y], path),
            )
        }),
{
    let words = seq![seq![mark], seq![x, y]] + meta;
    let record = worded(words, path);
    assert forall|i: int| 0 <= i < words.len() implies !(#[trigger] words[i]).contains(' ') by {
        if i >= 2 {
            assert(words[i] == meta[i - 2]);
        } else if i == 0 {
            assert(words[i] =~= seq![mark]);
        } else {
            assert(words[i] =~= seq![x, y]);
        }
    }
    let none = Seq::<char>::empty();
    lemma_behind_words(none, words, path);
    assert(none + record =~= record);
    let more = words.drop_first();
    let last = more.drop_first();
    assert(record =~= none + (seq![mark].push(' ') + worded(more, path)));
    lemma_word_found(none, seq![mark], worded(more, path));
    let head = seq![mark, ' '];
    assert(more[0] == seq![x, y]);
    assert(record =~= head + (seq![x, y].push(' ') + worded(last, path)));
    lemma_word_found(head, seq![x, y], worded(last, path));
    assert(record.subrange(2, 4) =~= seq![x, y]);
    let start = terminated(words, ' ').len() as int;
    assert(record.skip(start) =~= path);
}

proof fn lemma_status_fields_hold_no_nul(records: Seq<StatusRecord>)
    requires
        forall|i: int| 0 <= i < records.len() ==> (#[trigger] records[i]).sound(),
    ensures
        none_holds(status_fields(records), '\0'),
    decreases records.len(),
{
    if records.len() > 0 {
        let rest = records.drop_first();
        assert forall|i: int| 0 <= i < rest.len() implies (#[trigger] rest[i]).sound() by {
            assert(rest[i] == records[i + 1]);
        }
        lemma_status_fields_hold_no_nul(rest);
        let a = records[0].fields();
        let b = status_fields(rest);
        assert(records[0].sound());
        assert forall|i: int| 0 <= i < (a + b).len() implies !(#[trigger] (a + b)[i]).contains(
            '\0',
        ) by {
            if i < a.len() {
                assert((a + b)[i] == a[i]);
            } else {
                assert((a + b)[i] == b[i - a.len()]);
            }
        }
    }
}

/// What is read from field `at` on, when the fields of `records` stand there.
proof fn lemma_status_read(before: Seq<Seq<char>>, records: Seq<StatusRecord>)
    requires
        forall|i: int| 0 <= i < records.len() ==> (#[trigger] records[i]).sound(),
    ensures
        ({
            let fields = before + status_fields(records).push(Seq::empty());
            match porcelain(fields, before.len() as int) {
                Ok(s) => s.len() == changes(records).len() && forall|i: int|
                    0 <= i < s.len() ==> says(#[trigger] s[i], changes(records)[i]),
                Err(_) => false,
            }
        }),
    decreases records.len(),
{
    let fields = before + status_fields(records).push(Seq::empty());
    let at = before.len() as int;
    if records.len() == 0 {
        assert(fields[at] == Seq::<char>::empty());
        assert(porcelain(fields, at + 1) == Ok::<Seq<EntryView>, ParseError>(Seq::empty()));
    } else {
        let rest = records.drop_first();
        let r = records[0];
        assert forall|i: int| 0 <= i < rest.len() implies (#[trigger] rest[i]).sound() by {
            assert(rest[i] == records[i + 1]);
        }
        assert(r.sound());
        let next = before + r.fields();
        lemma_status_read(next, rest);
        assert(fields =~= next + status_fields(rest).push(Seq::empty()));
        assert(fields[at] == r.fields()[0]);
        let tail = porcelain(fields, next.len() as int)->Ok_0;
        let s = porcelain(fields, at);
        match r {
            StatusRecord::Ordinary { x, y, meta, path } => {
                lemma_ordinary('1', x, y, meta, path, 8);
                assert(s->Ok_0.len() == 1 + tail.len());
                assert forall|i: int| 0 <= i < s->Ok_0.len() implies says(
                    #[trigger] s->Ok_0[i],
                    changes(records)[i],
                ) by {
                    if i > 0 {
                        assert(s->Ok_0[i] == tail[i - 1]);
                        assert(changes(records)[i] == changes(rest)[i - 1]);
                    }
                }
            },
            StatusRecord::Renamed { x, y, meta, path, orig } => {
                lemma_ordinary('2', x, y, meta, path, 9);
                assert(fields[at + 1] == r.fields()[1]);
                assert(s->Ok_0.len() == 1 + tail.len());
                assert forall|i: int| 0 <= i < s->Ok_0.len() implies says(
                    #[trigger] s->Ok_0[i],
                    changes(records)[i],
                ) by {
                    if i > 0 {
                        assert(s->Ok_0[i] == tail[i - 1]);
                        assert(changes(records)[i] == changes(rest)[i - 1]);
                    }
                }
            },
            StatusRecord::Unmerged { x, y, meta, path } => {
                lemma_ordinary('u', x, y, meta, path, 10);
                assert(s->Ok_0.len() == 1 + tail.len());
                assert forall|i: int| 0 <= i < s->Ok_0.len() implies says(
                    #[trigger] s->Ok_0[i],
                    changes(records)[i],
                ) by {
                    if i > 0 {
                        assert(s->Ok_0[i] == tail[i - 1]);
                        assert(changes(records)[i] == changes(rest)[i - 1]);
                    }
                }
            },
            StatusRecord::Untracked { path } => {
                lemma_marked('?', path);
                assert(s->Ok_0.len() == 1 + tail.len());
                assert forall|i: int| 0 <= i < s->Ok_0.len() implies says(
                    #[trigger] s->Ok_0[i],
                    changes(records)[i],
                ) by {
                    if i > 0 {
                        assert(s->Ok_0[i] == tail[i - 1]);
                        assert(changes(records)[i] == changes(rest)[i - 1]);
                    }
                }
            },
            StatusRecord::Ignored { path } => {
                lemma_marked('!', path);
            },
            StatusRecord::Header { text } => {
                lemma_marked('#', text);
            },
        }
    }
}

proof fn lemma_marked(mark: char, path: Seq<char>)
    ensures
        ({
            let record = worded(seq![seq![mark]], path);
            record.len() >= 2 && record[0] == mark && record[1] == ' ' && record.skip(2) == path
        }),
{
    let words = seq![seq![mark]];
    assert(words.drop_first() =~= Seq::<Seq<char>>::empty());
    assert(terminated(words.drop_first(), ' ') =~= Seq::<char>::empty());
    assert(terminated(words, ' ') =~= seq![mark, ' ']);
    let record = worded(words, path);
    assert(record =~= seq![mark, ' '] + path);
    assert(record.skip(2) =~= path);
}

/// What `git status` prints is read back: one entry for each changed file, in
/// its order, that says what the record's letters and paths say.
pub proof fn law_status_is_read_back(records: Seq<StatusRecord>)
    requires
        forall|i: int| 0 <= i < records.len() ==> (#[trigger] records[i]).sound(),
    ensures
        match porcelain(split(status_text(records), '\0'), 0) {
            Ok(s) => s.len() == changes(records).len() && forall|i: int|
                0 <= i < s.len() ==> says(#[trigger] s[i], changes(records)[i]),
            Err(_) => false,
        },
{
    let none = Seq::<Seq<char>>::empty();
    lemma_status_fields_hold_no_nul(records);
    law_terminated_texts_are_read_back(status_fields(records), '\0');
    lemma_status_read(none, records);
    assert(none + status_fields(records).push(Seq::empty()) =~= status_fields(records).push(
        Seq::empty(),
    ));
}

// ---- git diff --name-status -z -M --------------------------------------------------

/// One record of `--name-status`: the letter and the path; of a rename or copy
/// its similarity and both paths.
pub enum NameRecord {
    Plain { letter: char, path: Seq<char> },
    Moved { copied: bool, score: nat, orig: Seq<char>, path: Seq<char> },
}

impl NameRecord {
    pub open spec fn fields(self) -> Seq<Seq<char>> {
        match self {
            NameRecord::Plain { letter, path } => seq![seq![letter], path],
            NameRecord::Moved { copied, score, orig, path } => seq![
                seq![
                    if copied {
                        'C'
                    } else {
                        'R'
                    },
                ] + dec(score),
                orig,
                path,
            ],
        }
    }

    pub open spec fn sound(self) -> bool {
        &&& none_holds(self.fields(), '\0')
        &&& self matches NameRecord::Plain { letter, .. } ==> letter != 'R' && letter != 'C'
    }
}

pub open spec fn name_fields(records: Seq<NameRecord>) -> Seq<Seq<char>>
    decreases records.len(),
{
    if records.len() == 0 {
        Seq::empty()
    } else {
        records[0].fields() + name_fields(records.drop_first())
    }
}

/// Entry `e` says what the record says.
pub open spec fn names(e: EntryView, record: NameRecord) -> bool {
    &&& e.adds is None && e.dels is None
    &&& e.stage == StageState::NA
    &&& match record {
        NameRecord::Plain { letter, path } => {
            &&& e.path == path && e.orig_path is None
            &&& e.kind == ChangeKind::Added <==> letter == 'A'
            &&& e.kind == ChangeKind::Deleted <==> letter == 'D'
            &&& e.kind == ChangeKind::Conflicted <==> letter == 'U'
            &&& e.kind == ChangeKind::Modified <==> letter != 'A' && letter != 'D' && letter != 'U'
        },
        NameRecord::Moved { orig, path, .. } => {
            &&& e.path == path && e.orig_path == Some(orig)
            &&& e.kind == ChangeKind::Renamed
        },
    }
}

proof fn lemma_name_fields_hold_no_nul(records: Seq<NameRecord>)
    requires
        forall|i: int| 0 <= i < records.len() ==> (#[trigger] records[i]).sound(),
    ensures
        none_holds(name_fields(records), '\0'),
    decreases records.len(),
{
    if records.len() > 0 {
        let rest = records.drop_first();
        assert forall|i: int| 0 <= i < rest.len() implies (#[trigger] rest[i]).sound() by {
            assert(rest[i] == records[i + 1]);
        }
        lemma_name_fields_hold_no_nul(rest);
        let a = records[0].fields();
        let b = name_fields(rest);
        assert(records[0].sound());
        assert forall|i: int| 0 <= i < (a + b).len() implies !(#[trigger] (a + b)[i]).contains(
            '\0',
        ) by {
            if i < a.len() {
                assert((a + b)[i] == a[i]);
            } else {
                assert((a + b)[i] == b[i - a.len()]);
            }
        }
    }
}

proof fn lemma_names_read(before: Seq<Seq<char>>, records: Seq<NameRecord>)
    requires
        forall|i: int| 0 <= i < records.len() ==> (#[trigger] records[i]).sound(),
    ensures
        ({
            let fields = before + name_fields(records).push(Seq::empty());
            match name_status(fields, before.len() as int) {
                Ok(s) => s.len() == records.len() && forall|i: int|
                    0 <= i < s.len() ==> names(#[trigger] s[i], records[i]),
                Err(_) => false,
            }
        }),
    decreases records.len(),
{
    let fields = before + name_fields(records).push(Seq::empty());
    let at = before.len() as int;
    if records.len() == 0 {
        assert(fields[at] == Seq::<char>::empty());
        assert(name_status(fields, at + 1) == Ok::<Seq<EntryView>, ParseError>(Seq::empty()));
    } else {
        let rest = records.drop_first();
        let r = records[0];
        assert forall|i: int| 0 <= i < rest.len() implies (#[trigger] rest[i]).sound() by {
            assert(rest[i] == records[i + 1]);
        }
        assert(r.sound());
        let next = before + r.fields();
        lemma_names_read(next, rest);
        assert(fields =~= next + name_fields(rest).push(Seq::empty()));
        assert(fields[at] == r.fields()[0]);
        assert(fields[at + 1] == r.fields()[1]);
        if r is Moved {
            assert(fields[at + 2] == r.fields()[2]);
        }
        let tail = name_status(fields, next.len() as int)->Ok_0;
        let s = name_status(fields, at);
        assert(s->Ok_0.len() == 1 + tail.len());
        assert forall|i: int| 0 <= i < s->Ok_0.len() implies names(
            #[trigger] s->Ok_0[i],
            records[i],
        ) by {
            if i > 0 {
                assert(s->Ok_0[i] == tail[i - 1]);
                assert(records[i] == rest[i - 1]);
            }
        }
    }
}

/// What `--name-status` prints is read back: one entry for each record, in
/// order, that says what its letter and paths say.
pub proof fn law_names_are_read_back(records: Seq<NameRecord>)
    requires
        forall|i: int| 0 <= i < records.len() ==> (#[trigger] records[i]).sound(),
    ensures
        match name_status(split(terminated(name_fields(records), '\0'), '\0'), 0) {
            Ok(s) => s.len() == records.len() && forall|i: int|
                0 <= i < s.len() ==> names(#[trigger] s[i], records[i]),
            Err(_) => false,
        },
{
    let none = Seq::<Seq<char>>::empty();
    lemma_name_fields_hold_no_nul(records);
    law_terminated_texts_are_read_back(name_fields(records), '\0');
    lemma_names_read(none, records);
    assert(none + name_fields(records).push(Seq::empty()) =~= name_fields(records).push(
        Seq::empty(),
    ));
}

// ---- git diff --numstat -z ----------------------------------------------------------

/// One record of `--numstat`: added and deleted lines, none for a binary file,
/// and the path; of a rename the path before it, too.
pub struct CountRecord {
    pub counts: Option<(u32, u32)>,
    pub path: Seq<char>,
    pub orig: Option<Seq<char>>,
}

impl CountRecord {
    pub open spec fn columns(self) -> Seq<Seq<char>> {
        match self.counts {
            Some((a, d)) => seq![dec(a as nat), dec(d as nat)],
            None => seq![seq!['-'], seq!['-']],
        }
    }

    pub open spec fn fields(self) -> Seq<Seq<char>> {
        match self.orig {
            None => seq![terminated(self.columns(), '\t') + self.path],
            Some(orig) => seq![terminated(self.columns(), '\t'), orig, self.path],
        }
    }

    pub open spec fn sound(self) -> bool {
        &&& none_holds(self.fields(), '\0')
        &&& self.orig is None ==> self.path.len() > 0 && !self.path.contains('\t')
    }
}

pub open spec fn count_fields(records: Seq<CountRecord>) -> Seq<Seq<char>>
    decreases records.len(),
{
    if records.len() == 0 {
        Seq::empty()
    } else {
        records[0].fields() + count_fields(records.drop_first())
    }
}

proof fn lemma_count_fields_hold_no_nul(records: Seq<CountRecord>)
    requires
        forall|i: int| 0 <= i < records.len() ==> (#[trigger] records[i]).sound(),
    ensures
        none_holds(count_fields(records), '\0'),
    decreases records.len(),
{
    if records.len() > 0 {
        let rest = records.drop_first();
        assert forall|i: int| 0 <= i < rest.len() implies (#[trigger] rest[i]).sound() by {
            assert(rest[i] == records[i + 1]);
        }
        lemma_count_fields_hold_no_nul(rest);
        let a = records[0].fields();
        let b = count_fields(rest);
        assert(records[0].sound());
        assert forall|i: int| 0 <= i < (a + b).len() implies !(#[trigger] (a + b)[i]).contains(
            '\0',
        ) by {
            if i < a.len() {
                assert((a + b)[i] == a[i]);
            } else {
                assert((a + b)[i] == b[i - a.len()]);
            }
        }
    }
}

/// Digits hold neither tab nor blank.
proof fn lemma_digits_hold_no_tab(n: nat)
    ensures
        !dec(n).contains('\t'),
        dec(n).len() >= 1,
{
    lemma_dec_is_plain(n);
    if dec(n).contains('\t') {
        let k = choose|k: int| 0 <= k < dec(n).len() && dec(n)[k] == '\t';
        assert(is_digit(dec(n)[k]));
    }
}

proof fn lemma_columns_read(r: CountRecord, tail: Seq<char>)
    requires
        !tail.contains('\t'),
    ensures
        ({
            let columns = split(terminated(r.columns(), '\t') + tail, '\t');
            &&& columns.len() == 3 && columns[2] == tail
            &&& crate::git::stat_of(columns[0], columns[1]) == r.counts
        }),
        terminated(r.columns(), '\t').len() > 0,
{
    let c = r.columns();
    if let Some((a, d)) = r.counts {
        lemma_digits_hold_no_tab(a as nat);
        lemma_digits_hold_no_tab(d as nat);
        law_written_numbers_are_read_back(a as nat, u32::MAX as nat);
        law_written_numbers_are_read_back(d as nat, u32::MAX as nat);
    } else {
        assert(!seq!['-'].contains('\t'));
        let s = seq!['-'];
        assert(!is_digit(s[0]));
        assert(parse_unsigned(s, u32::MAX as nat) is None);
    }
    assert(none_holds(c, '\t'));
    crate::text::lemma_split_terminated_then(c, tail, '\t');
    assert(terminated(c, '\t').len() >= c[0].len() + 1);
}

proof fn lemma_counts_read(before: Seq<Seq<char>>, records: Seq<CountRecord>)
    requires
        forall|i: int| 0 <= i < records.len() ==> (#[trigger] records[i]).sound(),
    ensures
        ({
            let fields = before + count_fields(records).push(Seq::empty());
            let s = numstat(fields, before.len() as int);
            s.len() == records.len() && forall|i: int|
                0 <= i < s.len() ==> #[trigger] s[i] == (records[i].path, records[i].counts)
        }),
    decreases records.len(),
{
    let fields = before + count_fields(records).push(Seq::empty());
    let at = before.len() as int;
    if records.len() == 0 {
        assert(fields[at] == Seq::<char>::empty());
        assert(numstat(fields, at + 1) == Seq::<(Seq<char>, Stat)>::empty());
    } else {
        let rest = records.drop_first();
        let r = records[0];
        assert forall|i: int| 0 <= i < rest.len() implies (#[trigger] rest[i]).sound() by {
            assert(rest[i] == records[i + 1]);
        }
        assert(r.sound());
        let next = before + r.fields();
        lemma_counts_read(next, rest);
        assert(fields =~= next + count_fields(rest).push(Seq::empty()));
        assert(fields[at] == r.fields()[0]);
        let none = Seq::<char>::empty();
        match r.orig {
            None => {
                lemma_columns_read(r, r.path);
            },
            Some(orig) => {
                lemma_columns_read(r, none);
                assert(terminated(r.columns(), '\t') + none =~= terminated(r.columns(), '\t'));
                assert(fields[at + 2] == r.fields()[2]);
            },
        }
        let tail = numstat(fields, next.len() as int);
        let s = numstat(fields, at);
        assert(s =~= seq![(r.path, r.counts)] + tail);
        assert forall|i: int| 0 <= i < s.len() implies #[trigger] s[i] == (
            records[i].path,
            records[i].counts,
        ) by {
            if i > 0 {
                assert(s[i] == tail[i - 1]);
                assert(records[i] == rest[i - 1]);
            }
        }
    }
}

/// What `--numstat` prints is read back: the path of each record with its
/// counts, in order, under its new path where it was renamed.
pub proof fn law_counts_are_read_back(records: Seq<CountRecord>)
    requires
        forall|i: int| 0 <= i < records.len() ==> (#[trigger] records[i]).sound(),
    ensures
        ({
            let s = numstat(split(terminated(count_fields(records), '\0'), '\0'), 0);
            s.len() == records.len() && forall|i: int|
                0 <= i < s.len() ==> #[trigger] s[i] == (records[i].path, records[i].counts)
        }),
{
    let none = Seq::<Seq<char>>::empty();
    lemma_count_fields_hold_no_nul(records);
    law_terminated_texts_are_read_back(count_fields(records), '\0');
    lemma_counts_read(none, records);
    assert(none + count_fields(records).push(Seq::empty()) =~= count_fields(records).push(
        Seq::empty(),
    ));
}

// ---- git log ------------------------------------------------------------------------

/// What git prints for commit `c` by a format from position `i` on: `%H` is the
/// id, `%h` the short one, `%an` the author, `%ad` the date, `%s` the subject
/// and `%x00` a NUL; any other character stands for itself.
pub open spec fn formatted(format: Seq<char>, i: int, c: CommitView) -> Seq<char>
    decreases format.len() - i,
{
    if i < 0 || i >= format.len() {
        Seq::empty()
    } else if format[i] != '%' || i + 1 >= format.len() {
        seq![format[i]] + formatted(format, i + 1, c)
    } else if format[i + 1] == 'H' {
        c.sha + formatted(format, i + 2, c)
    } else if format[i + 1] == 'h' {
        c.short + formatted(format, i + 2, c)
    } else if format[i + 1] == 's' {
        c.subject + formatted(format, i + 2, c)
    } else if i + 2 < format.len() && format[i + 1] == 'a' && format[i + 2] == 'n' {
        c.author + formatted(format, i + 3, c)
    } else if i + 2 < format.len() && format[i + 1] == 'a' && format[i + 2] == 'd' {
        c.date + formatted(format, i + 3, c)
    } else if i + 3 < format.len() && format[i + 1] == 'x' && format[i + 2] == '0' && format[i + 3]
        == '0' {
        seq!['\0'] + formatted(format, i + 4, c)
    } else {
        seq![format[i]] + formatted(format, i + 1, c)
    }
}

/// What is behind `--format=`.
pub open spec fn format_of(arg: Seq<char>) -> Seq<char> {
    arg.skip("--format="@.len() as int)
}

/// What `git log` prints by a format: each commit and a line feed.
pub open spec fn logged(format: Seq<char>, list: Seq<CommitView>) -> Seq<char>
    decreases list.len(),
{
    if list.len() == 0 {
        Seq::empty()
    } else {
        formatted(format, 0, list[0]).push('\n') + logged(format, list.drop_first())
    }
}

/// As commits are: an id, and no NUL in any field.
pub open spec fn is_commit(c: CommitView) -> bool {
    &&& c.sha.len() > 0 && !is_space(c.sha[0])
    &&& none_holds(seq![c.sha, c.short, c.author, c.date, c.subject], '\0')
}

spec fn commit_fields(list: Seq<CommitView>) -> Seq<Seq<char>>
    decreases list.len(),
{
    if list.len() == 0 {
        Seq::empty()
    } else {
        let c = list[0];
        seq![seq!['\n'] + c.sha, c.short, c.author, c.date, c.subject] + commit_fields(
            list.drop_first(),
        )
    }
}

proof fn lemma_formatted(c: CommitView)
    ensures
        formatted(format_of(log_args(0, None)[1]), 0, c) == terminated(
            seq![c.sha, c.short, c.author, c.date, c.subject],
            '\0',
        ),
        forall|limit: nat, range: Option<Seq<char>>| #[trigger]
            log_args(limit, range)[1] == log_args(0, None)[1],
{
    let arg = log_args(0, None)[1];
    reveal_strlit("--format=%H%x00%h%x00%an%x00%ad%x00%s%x00");
    reveal_strlit("--format=");
    let f = format_of(arg);
    assert(arg == "--format=%H%x00%h%x00%an%x00%ad%x00%s%x00"@);
    assert("--format="@.len() == 9);
    assert(f.len() == 32);
    assert(f =~= seq![
        '%', 'H', '%', 'x', '0', '0', '%', 'h', '%', 'x', '0', '0', '%', 'a', 'n', '%', 'x', '0',
        '0', '%', 'a', 'd', '%', 'x', '0', '0', '%', 's', '%', 'x', '0', '0',
    ]);
    assert(formatted(f, 32, c) == Seq::<char>::empty());
    assert(formatted(f, 28, c) =~= seq!['\0']);
    assert(formatted(f, 26, c) =~= c.subject + seq!['\0']);
    assert(formatted(f, 22, c) == seq!['\0'] + formatted(f, 26, c));
    assert(formatted(f, 19, c) == c.date + formatted(f, 22, c));
    assert(formatted(f, 15, c) == seq!['\0'] + formatted(f, 19, c));
    assert(formatted(f, 12, c) == c.author + formatted(f, 15, c));
    assert(formatted(f, 8, c) == seq!['\0'] + formatted(f, 12, c));
    assert(formatted(f, 6, c) == c.short + formatted(f, 8, c));
    assert(formatted(f, 2, c) == seq!['\0'] + formatted(f, 6, c));
    assert(formatted(f, 0, c) == c.sha + formatted(f, 2, c));
    let parts = seq![c.sha, c.short, c.author, c.date, c.subject];
    let p1 = parts.drop_first();
    let p2 = p1.drop_first();
    let p3 = p2.drop_first();
    let p4 = p3.drop_first();
    let p5 = p4.drop_first();
    assert(p5 =~= Seq::<Seq<char>>::empty());
    assert(terminated(p5, '\0') =~= Seq::<char>::empty());
    assert(terminated(p4, '\0') =~= formatted(f, 26, c));
    assert(terminated(p3, '\0') =~= formatted(f, 19, c));
    assert(terminated(p2, '\0') =~= formatted(f, 12, c));
    assert(terminated(p1, '\0') =~= formatted(f, 6, c));
    assert(terminated(parts, '\0') =~= formatted(f, 0, c));
}

/// A line feed in front of what is logged, seen as fields.
proof fn lemma_logged_fields(list: Seq<CommitView>)
    requires
        forall|i: int| 0 <= i < list.len() ==> is_commit(#[trigger] list[i]),
    ensures
        seq!['\n'] + logged(format_of(log_args(0, None)[1]), list) == terminated(
            commit_fields(list),
            '\0',
        ) + seq!['\n'],
        none_holds(commit_fields(list), '\0'),
    decreases list.len(),
{
    let f = format_of(log_args(0, None)[1]);
    if list.len() == 0 {
        assert(seq!['\n'] + logged(f, list) =~= terminated(commit_fields(list), '\0') + seq!['\n']);
    } else {
        let c = list[0];
        let rest = list.drop_first();
        assert forall|i: int| 0 <= i < rest.len() implies is_commit(#[trigger] rest[i]) by {
            assert(rest[i] == list[i + 1]);
        }
        assert(is_commit(list[0]));
        lemma_logged_fields(rest);
        lemma_formatted(c);
        let own = seq![c.sha, c.short, c.author, c.date, c.subject];
        let led = seq![seq!['\n'] + c.sha, c.short, c.author, c.date, c.subject];
        lemma_terminated_concat(led, commit_fields(rest), '\0');
        assert(own.drop_first() =~= led.drop_first());
        assert(terminated(led, '\0') =~= seq!['\n'] + terminated(own, '\0'));
        assert(seq!['\n'] + logged(f, list) =~= terminated(led, '\0') + (seq!['\n'] + logged(
            f,
            rest,
        )));
        assert(seq!['\n'] + logged(f, list) =~= terminated(commit_fields(list), '\0') + seq!['\n']);
        let all = led + commit_fields(rest);
        assert forall|i: int| 0 <= i < all.len() implies !(#[trigger] all[i]).contains('\0') by {
            if i == 0 {
                let s = seq!['\n'] + c.sha;
                assert(all[0] == s);
                assert(!own[0].contains('\0'));
                if s.contains('\0') {
                    let k = choose|k: int| 0 <= k < s.len() && s[k] == '\0';
                    assert(c.sha[k - 1] == '\0');
                }
            } else if i < 5 {
                assert(all[i] == own[i]);
            } else {
                assert(all[i] == commit_fields(rest)[i - 5]);
            }
        }
    }
}

proof fn lemma_led_sha(sha: Seq<char>)
    requires
        sha.len() > 0,
        !is_space(sha[0]),
    ensures
        trim_start(seq!['\n'] + sha) == sha,
        trim_start(sha) == sha,
{
    let s = seq!['\n'] + sha;
    assert(trim_start(sha) == sha);
    assert(s[0] == '\n' && is_space('\n'));
    assert(s.drop_first() =~= sha);
    assert(trim_start(s) == trim_start(s.drop_first()));
}

proof fn lemma_commits_read(before: Seq<Seq<char>>, list: Seq<CommitView>, bare: bool)
    requires
        forall|i: int| 0 <= i < list.len() ==> is_commit(#[trigger] list[i]),
    ensures
        ({
            let own = commit_fields(list);
            let shown = if bare && list.len() > 0 {
                own.update(0, list[0].sha)
            } else {
                own
            };
            commits(before + shown.push(seq!['\n']), before.len() as int) == list
        }),
    decreases list.len(),
{
    let own = commit_fields(list);
    let shown = if bare && list.len() > 0 {
        own.update(0, list[0].sha)
    } else {
        own
    };
    let fields = before + shown.push(seq!['\n']);
    let at = before.len() as int;
    if list.len() == 0 {
        assert(commits(fields, at) =~= list);
    } else {
        let c = list[0];
        let rest = list.drop_first();
        assert forall|i: int| 0 <= i < rest.len() implies is_commit(#[trigger] rest[i]) by {
            assert(rest[i] == list[i + 1]);
        }
        assert(is_commit(list[0]));
        lemma_led_sha(c.sha);
        let next = before + shown.take(5);
        lemma_commits_read(next, rest, false);
        assert(fields =~= next + commit_fields(rest).push(seq!['\n']));
        assert(fields[at] == shown[0]);
        assert(fields[at + 1] == own[1] && fields[at + 2] == own[2] && fields[at + 3] == own[3]
            && fields[at + 4] == own[4]);
        assert(next.len() == at + 5);
        assert(commits(fields, at) =~= seq![c] + rest);
        assert(seq![c] + rest =~= list);
    }
}

/// What `git log` prints by the format that it is given is read back: the same
/// commits, field by field.
pub proof fn law_the_log_is_read_back(
    list: Seq<CommitView>,
    limit: nat,
    range: Option<Seq<char>>,
)
    requires
        forall|i: int| 0 <= i < list.len() ==> is_commit(#[trigger] list[i]),
    ensures
        commits(split(logged(format_of(log_args(limit, range)[1]), list), '\0'), 0) == list,
{
    let f = format_of(log_args(0, None)[1]);
    let text = logged(f, list);
    let none = Seq::<Seq<char>>::empty();
    if list.len() > 0 {
        lemma_formatted(list[0]);
        lemma_logged_fields(list);
        let own = commit_fields(list);
        let shown = own.update(0, list[0].sha);
        assert(is_commit(list[0]));
        assert(shown[0] == list[0].sha);
        assert(shown.drop_first() =~= own.drop_first());
        assert(seq!['\n'] + (terminated(shown, '\0') + seq!['\n']) =~= terminated(own, '\0')
            + seq!['\n']);
        assert(text =~= (seq!['\n'] + text).skip(1));
        assert(terminated(shown, '\0') + seq!['\n'] =~= (seq!['\n'] + (terminated(shown, '\0')
            + seq!['\n'])).skip(1));
        assert(text == terminated(shown, '\0') + seq!['\n']);
        assert forall|i: int| 0 <= i < shown.len() implies !(#[trigger] shown[i]).contains('\0') by {
            if i > 0 {
                assert(shown[i] == own[i]);
            } else {
                let parts = seq![
                    list[0].sha,
                    list[0].short,
                    list[0].author,
                    list[0].date,
                    list[0].subject,
                ];
                assert(!parts[0].contains('\0'));
            }
        }
        assert(!seq!['\n'].contains('\0'));
        crate::text::lemma_split_terminated_then(shown, seq!['\n'], '\0');
        lemma_commits_read(none, list, true);
        assert(none + shown.push(seq!['\n']) =~= shown.push(seq!['\n']));
    } else {
        let c = CommitView {
            sha: Seq::empty(),
            short: Seq::empty(),
            author: Seq::empty(),
            date: Seq::empty(),
            subject: Seq::empty(),
        };
        lemma_formatted(c);
        assert(split(text, '\0').len() == 1);
        assert(commits(split(text, '\0'), 0) =~= list);
    }
    assert(log_args(limit, range)[1] == log_args(0, None)[1]);
}

// ---- what cannot be read -----------------------------------------------------------

/// How many blanks `s` holds from `from` on.
pub open spec fn blanks(s: Seq<char>, from: int) -> nat
    decreases s.len() - from,
{
    if from < 0 || from >= s.len() {
        0
    } else {
        blanks(s, from + 1) + if s[from] == ' ' {
            1nat
        } else {
            0
        }
    }
}

proof fn lemma_blank_found(s: Seq<char>, from: int)
    requires
        0 <= from <= s.len(),
    ensures
        ({
            let i = find_from(s, ' ', from);
            &&& from <= i <= s.len()
            &&& i < s.len() ==> blanks(s, from) == blanks(s, i + 1) + 1
            &&& i == s.len() ==> blanks(s, from) == 0
        }),
    decreases s.len() - from,
{
    if from < s.len() && s[from] != ' ' {
        lemma_blank_found(s, from + 1);
    }
}

proof fn lemma_enough_blanks(s: Seq<char>, from: int, n: nat)
    requires
        0 <= from <= s.len(),
    ensures
        after_spaces(s, from, n) is Some <==> blanks(s, from) >= n,
    decreases n,
{
    if n > 0 {
        lemma_blank_found(s, from);
        let i = find_from(s, ' ', from);
        if i < s.len() {
            lemma_enough_blanks(s, i + 1, (n - 1) as nat);
        }
    }
}

/// The fields that a record of `git status` has in front of its path.
pub open spec fn fields_before_path(mark: char) -> nat {
    if mark == '1' {
        8
    } else if mark == '2' {
        9
    } else {
        10
    }
}

/// A record of `git status` that ends before its path is refused, and so is a
/// rename without the path that it came from.
pub proof fn law_a_broken_status_is_refused(fields: Seq<Seq<char>>, i: int)
    requires
        0 <= i < fields.len(),
        fields[i].len() > 0,
        fields[i][0] == '1' || fields[i][0] == '2' || fields[i][0] == 'u',
    ensures
        blanks(fields[i], 0) == 0 ==> porcelain(fields, i) == Err::<Seq<EntryView>, ParseError>(
            ParseError::MissingXy,
        ),
        0 < blanks(fields[i], 0) < fields_before_path(fields[i][0]) ==> porcelain(fields, i)
            == Err::<Seq<EntryView>, ParseError>(ParseError::TooShort),
        fields[i][0] == '2' && blanks(fields[i], 0) >= 9 && i + 1 == fields.len() ==> porcelain(
            fields,
            i,
        ) == Err::<Seq<EntryView>, ParseError>(ParseError::MissingOrigField),
{
    let record = fields[i];
    lemma_blank_found(record, 0);
    lemma_enough_blanks(record, 0, fields_before_path(record[0]));
}

/// One record that is refused is enough: nothing is read of the rest.
pub proof fn law_an_error_is_not_passed_over(fields: Seq<Seq<char>>, i: int)
    requires
        0 <= i < fields.len(),
        porcelain(fields, i + 1) is Err,
        fields[i].len() == 0 || fields[i][0] == '#' || fields[i][0] == '!' || (fields[i][0] == '?'
            && fields[i].len() >= 2 && fields[i][1] == ' '),
    ensures
        porcelain(fields, i) == porcelain(fields, i + 1),
{
}

/// A list of names that ends before a path is refused.
pub proof fn law_a_broken_list_of_names_is_refused(fields: Seq<Seq<char>>, i: int)
    requires
        0 <= i < fields.len(),
        fields[i].len() > 0,
    ensures
        i + 1 == fields.len() ==> name_status(fields, i) == Err::<Seq<EntryView>, ParseError>(
            if fields[i][0] == 'R' || fields[i][0] == 'C' {
                ParseError::RenameMissingOrig
            } else {
                ParseError::MissingPath
            },
        ),
        i + 2 == fields.len() && (fields[i][0] == 'R' || fields[i][0] == 'C') ==> name_status(
            fields,
            i,
        ) == Err::<Seq<EntryView>, ParseError>(ParseError::RenameMissingNew),
{
}

} // verus!
