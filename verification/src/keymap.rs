//! The keys that actions are bound to: the defaults, and the user's table over
//! them.
use crate::input::{
    hint_from, hints_view, law_no_key_is_shown_without_one, law_the_first_key_is_shown, Action,
    Hints, Key, KeyCode, KeyKind,
};
use crate::text::{
    append, chars_of, copy, same, starts_with, strip_prefix,
};
use vstd::prelude::*;

verus! {

broadcast use vstd::string::group_string_axioms;

// ---- keys ------------------------------------------------------------------------

/// A key as it is written in the table. A character carries its case, so shift
/// says nothing more of it.
#[derive(Debug, Clone, Copy, PartialEq, Eq, Structural)]
pub struct Binding {
    pub code: KeyCode,
    pub ctrl: bool,
    pub alt: bool,
    pub shift: bool,
}

impl Binding {
    /// The binding that a pressed key stands for.
    pub open spec fn of(key: Key) -> Binding {
        Binding {
            code: key.code,
            ctrl: key.ctrl,
            alt: key.alt,
            shift: key.shift && !(key.code is Char),
        }
    }
}

/// The key called `name`: one character, or a word.
pub open spec fn key_named(name: Seq<char>) -> Option<KeyCode> {
    if name.len() == 1 {
        Some(KeyCode::Char(name[0]))
    } else if name == "space"@ {
        Some(KeyCode::Char(' '))
    } else {
        word_key(name)
    }
}

pub open spec fn word_key(name: Seq<char>) -> Option<KeyCode> {
    if name == "enter"@ {
        Some(KeyCode::Enter)
    } else if name == "esc"@ {
        Some(KeyCode::Esc)
    } else if name == "tab"@ {
        Some(KeyCode::Tab)
    } else if name == "up"@ {
        Some(KeyCode::Up)
    } else if name == "down"@ {
        Some(KeyCode::Down)
    } else if name == "left"@ {
        Some(KeyCode::Left)
    } else if name == "right"@ {
        Some(KeyCode::Right)
    } else if name == "pgup"@ {
        Some(KeyCode::PageUp)
    } else if name == "pgdn"@ {
        Some(KeyCode::PageDown)
    } else if name == "home"@ {
        Some(KeyCode::Home)
    } else if name == "end"@ {
        Some(KeyCode::End)
    } else {
        None
    }
}

/// A text without a prefix, and whether it had it.
pub open spec fn without(s: Seq<char>, p: Seq<char>) -> (Seq<char>, bool) {
    if starts_with(s, p) {
        (s.skip(p.len() as int), true)
    } else {
        (s, false)
    }
}

/// `[ctrl+][alt+][shift+]<key>`.
pub open spec fn key_of(s: Seq<char>) -> Option<Binding> {
    let (s1, ctrl) = without(s, "ctrl+"@);
    let (s2, alt) = without(s1, "alt+"@);
    let (s3, shift) = without(s2, "shift+"@);
    match key_named(s3) {
        Some(code) => Some(Binding { code, ctrl, alt, shift: shift && !(code is Char) }),
        None => None,
    }
}

fn named_key(name: &str) -> (r: Option<KeyCode>)
    ensures
        r == key_named(name@),
{
    let cs = chars_of(name);
    if cs.len() == 1 {
        return Some(KeyCode::Char(cs[0]));
    }
    if same(name, "space") {
        return Some(KeyCode::Char(' '));
    }
    if same(name, "enter") {
        Some(KeyCode::Enter)
    } else if same(name, "esc") {
        Some(KeyCode::Esc)
    } else if same(name, "tab") {
        Some(KeyCode::Tab)
    } else if same(name, "up") {
        Some(KeyCode::Up)
    } else if same(name, "down") {
        Some(KeyCode::Down)
    } else if same(name, "left") {
        Some(KeyCode::Left)
    } else if same(name, "right") {
        Some(KeyCode::Right)
    } else if same(name, "pgup") {
        Some(KeyCode::PageUp)
    } else if same(name, "pgdn") {
        Some(KeyCode::PageDown)
    } else if same(name, "home") {
        Some(KeyCode::Home)
    } else if same(name, "end") {
        Some(KeyCode::End)
    } else {
        None
    }
}

fn cut(s: String, p: &str) -> (r: (String, bool))
    ensures
        (r.0@, r.1) == without(s@, p@),
{
    match strip_prefix(s.as_str(), p) {
        Some(rest) => (rest, true),
        None => (s, false),
    }
}

/// Read a key of the table.
pub fn parse_key(spec: &str) -> (r: Option<Binding>)
    ensures
        r == key_of(spec@),
{
    let (s, ctrl) = cut(copy(spec), "ctrl+");
    let (s, alt) = cut(s, "alt+");
    let (s, shift) = cut(s, "shift+");
    match named_key(s.as_str()) {
        Some(code) => {
            let shift = match code {
                KeyCode::Char(_) => false,
                _ => shift,
            };
            Some(Binding { code, ctrl, alt, shift })
        },
        None => None,
    }
}

// ---- actions ---------------------------------------------------------------------

/// The action that the table calls `name`.
pub open spec fn action_named(name: Seq<char>) -> Option<Action> {
    if name == "down"@ {
        Some(Action::Down)
    } else if name == "up"@ {
        Some(Action::Up)
    } else if name == "top"@ {
        Some(Action::Top)
    } else if name == "bottom"@ {
        Some(Action::Bottom)
    } else if name == "edit"@ {
        Some(Action::Edit)
    } else if name == "stage"@ {
        Some(Action::Stage)
    } else if name == "unstage"@ {
        Some(Action::Unstage)
    } else if name == "discard"@ {
        Some(Action::Discard)
    } else if name == "commit"@ {
        Some(Action::Commit)
    } else if name == "log"@ {
        Some(Action::Log)
    } else if name == "annotate"@ {
        Some(Action::Annotate)
    } else if name == "select"@ {
        Some(Action::Select)
    } else if name == "send_notes"@ {
        Some(Action::SendNotes)
    } else if name == "notes_view"@ {
        Some(Action::NotesView)
    } else if name == "delete"@ {
        Some(Action::Delete)
    } else if name == "toggle_scope"@ {
        Some(Action::ToggleScope)
    } else if name == "refresh"@ {
        Some(Action::Refresh)
    } else if name == "help"@ {
        Some(Action::Help)
    } else if name == "quit"@ {
        Some(Action::Quit)
    } else if name == "half_page_down"@ {
        Some(Action::HalfPageDown)
    } else if name == "half_page_up"@ {
        Some(Action::HalfPageUp)
    } else if name == "diff_top"@ {
        Some(Action::DiffTop)
    } else if name == "diff_bottom"@ {
        Some(Action::DiffBottom)
    } else if name == "scroll_down"@ {
        Some(Action::ScrollDown)
    } else if name == "scroll_up"@ {
        Some(Action::ScrollUp)
    } else {
        None
    }
}

fn named_action(name: &str) -> (r: Option<Action>)
    ensures
        r == action_named(name@),
{
    if same(name, "down") {
        Some(Action::Down)
    } else if same(name, "up") {
        Some(Action::Up)
    } else if same(name, "top") {
        Some(Action::Top)
    } else if same(name, "bottom") {
        Some(Action::Bottom)
    } else if same(name, "edit") {
        Some(Action::Edit)
    } else if same(name, "stage") {
        Some(Action::Stage)
    } else if same(name, "unstage") {
        Some(Action::Unstage)
    } else if same(name, "discard") {
        Some(Action::Discard)
    } else if same(name, "commit") {
        Some(Action::Commit)
    } else if same(name, "log") {
        Some(Action::Log)
    } else if same(name, "annotate") {
        Some(Action::Annotate)
    } else if same(name, "select") {
        Some(Action::Select)
    } else if same(name, "send_notes") {
        Some(Action::SendNotes)
    } else if same(name, "notes_view") {
        Some(Action::NotesView)
    } else if same(name, "delete") {
        Some(Action::Delete)
    } else if same(name, "toggle_scope") {
        Some(Action::ToggleScope)
    } else if same(name, "refresh") {
        Some(Action::Refresh)
    } else if same(name, "help") {
        Some(Action::Help)
    } else if same(name, "quit") {
        Some(Action::Quit)
    } else if same(name, "half_page_down") {
        Some(Action::HalfPageDown)
    } else if same(name, "half_page_up") {
        Some(Action::HalfPageUp)
    } else if same(name, "diff_top") {
        Some(Action::DiffTop)
    } else if same(name, "diff_bottom") {
        Some(Action::DiffBottom)
    } else if same(name, "scroll_down") {
        Some(Action::ScrollDown)
    } else if same(name, "scroll_up") {
        Some(Action::ScrollUp)
    } else {
        None
    }
}

/// The keys that actions have unless the user's table says otherwise; the first
/// of an action is the one that is shown.
pub open spec fn default_keys() -> Seq<(Action, Seq<char>)> {
    seq![
        (Action::Down, "j"@),
        (Action::Down, "down"@),
        (Action::Up, "k"@),
        (Action::Up, "up"@),
        (Action::Top, "g"@),
        (Action::Bottom, "G"@),
        (Action::Edit, "enter"@),
        (Action::Stage, "s"@),
        (Action::Unstage, "u"@),
        (Action::Discard, "x"@),
        (Action::Commit, "c"@),
        (Action::Log, "l"@),
        (Action::Annotate, "a"@),
        (Action::Select, "v"@),
        (Action::SendNotes, "p"@),
        (Action::NotesView, "n"@),
        (Action::Delete, "d"@),
        (Action::ToggleScope, "w"@),
        (Action::Refresh, "r"@),
        (Action::Help, "?"@),
        (Action::Quit, "q"@),
        (Action::Quit, "esc"@),
        (Action::HalfPageDown, "ctrl+d"@),
        (Action::HalfPageDown, "pgdn"@),
        (Action::HalfPageUp, "ctrl+u"@),
        (Action::HalfPageUp, "pgup"@),
        (Action::DiffTop, "home"@),
        (Action::DiffBottom, "end"@),
        (Action::ScrollDown, "J"@),
        (Action::ScrollUp, "K"@),
    ]
}

fn bind(v: &mut Vec<(Action, String)>, a: Action, key: &str)
    ensures
        hints_view(final(v)@) == hints_view(old(v)@).push((a, key@)),
{
    let ghost before = hints_view(v@);
    v.push((a, copy(key)));
    assert(hints_view(v@) =~= before.push((a, key@)));
}

fn defaults() -> (r: Vec<(Action, String)>)
    ensures
        hints_view(r@) == default_keys(),
{
    let mut v: Vec<(Action, String)> = Vec::new();
    assert(hints_view(v@) =~= Seq::<(Action, Seq<char>)>::empty());
    bind(&mut v, Action::Down, "j");
    bind(&mut v, Action::Down, "down");
    bind(&mut v, Action::Up, "k");
    bind(&mut v, Action::Up, "up");
    bind(&mut v, Action::Top, "g");
    bind(&mut v, Action::Bottom, "G");
    bind(&mut v, Action::Edit, "enter");
    bind(&mut v, Action::Stage, "s");
    bind(&mut v, Action::Unstage, "u");
    bind(&mut v, Action::Discard, "x");
    bind(&mut v, Action::Commit, "c");
    bind(&mut v, Action::Log, "l");
    bind(&mut v, Action::Annotate, "a");
    bind(&mut v, Action::Select, "v");
    bind(&mut v, Action::SendNotes, "p");
    bind(&mut v, Action::NotesView, "n");
    bind(&mut v, Action::Delete, "d");
    bind(&mut v, Action::ToggleScope, "w");
    bind(&mut v, Action::Refresh, "r");
    bind(&mut v, Action::Help, "?");
    bind(&mut v, Action::Quit, "q");
    bind(&mut v, Action::Quit, "esc");
    bind(&mut v, Action::HalfPageDown, "ctrl+d");
    bind(&mut v, Action::HalfPageDown, "pgdn");
    bind(&mut v, Action::HalfPageUp, "ctrl+u");
    bind(&mut v, Action::HalfPageUp, "pgup");
    bind(&mut v, Action::DiffTop, "home");
    bind(&mut v, Action::DiffBottom, "end");
    bind(&mut v, Action::ScrollDown, "J");
    bind(&mut v, Action::ScrollUp, "K");
    assert(hints_view(v@) =~= default_keys());
    v
}

// ---- the user's table ------------------------------------------------------------

/// Why the user's table is ignored.
#[derive(Debug)]
pub enum KeymapError {
    /// No action has this name.
    UnknownAction(String),
    /// This is no key.
    BadKey(String),
    /// This key belongs to another action already.
    Taken(String),
}

#[verifier::ext_equal]
pub enum ErrorView {
    UnknownAction(Seq<char>),
    BadKey(Seq<char>),
    Taken(Seq<char>),
}

impl View for KeymapError {
    type V = ErrorView;

    open spec fn view(&self) -> ErrorView {
        match self {
            KeymapError::UnknownAction(s) => ErrorView::UnknownAction(s@),
            KeymapError::BadKey(s) => ErrorView::BadKey(s@),
            KeymapError::Taken(s) => ErrorView::Taken(s@),
        }
    }
}

impl KeymapError {
    /// What the user is told.
    pub fn message(&self) -> (r: String)
        ensures
            r@ == "keybindings ignored: "@ + match self@ {
                ErrorView::UnknownAction(s) => "unknown action "@ + s,
                ErrorView::BadKey(s) => "bad key "@ + s,
                ErrorView::Taken(s) => s + " is bound twice"@,
            },
    {
        let mut tail = String::new();
        match self {
            KeymapError::UnknownAction(s) => {
                tail = copy("unknown action ");
                append(&mut tail, s.as_str());
            },
            KeymapError::BadKey(s) => {
                tail = copy("bad key ");
                append(&mut tail, s.as_str());
            },
            KeymapError::Taken(s) => {
                tail = copy(s.as_str());
                append(&mut tail, " is bound twice");
            },
        }
        let mut out = copy("keybindings ignored: ");
        append(&mut out, tail.as_str());
        out
    }
}

/// A bound key: the action, the key, and how the key is written.
pub struct Bound {
    pub action: Action,
    pub key: Binding,
    pub text: Seq<char>,
}

pub open spec fn pairs_view(v: Seq<(String, String)>) -> Seq<(Seq<char>, Seq<char>)> {
    v.map_values(|p: (String, String)| (p.0@, p.1@))
}

/// The actions of the first `n` lines of the user's table, with their keys.
pub open spec fn named(table: Seq<(Seq<char>, Seq<char>)>, n: int) -> Result<
    Seq<(Action, Seq<char>)>,
    ErrorView,
>
    decreases n,
{
    if n <= 0 {
        Ok(Seq::empty())
    } else {
        match named(table, n - 1) {
            Err(e) => Err(e),
            Ok(before) => match action_named(table[n - 1].0) {
                Some(a) => Ok(before.push((a, table[n - 1].1))),
                None => Err(ErrorView::UnknownAction(table[n - 1].0)),
            },
        }
    }
}

/// Whether line `i` of a table is about this action.
pub open spec fn binds(table: Seq<(Action, Seq<char>)>, a: Action, i: int) -> bool {
    table[i].0 == a
}

/// Whether the user's table says anything of an action.
pub open spec fn overridden(table: Seq<(Action, Seq<char>)>, a: Action) -> bool {
    exists|i: int| 0 <= i < table.len() && #[trigger] binds(table, a, i)
}

/// Those of the first `n` keys whose action the user's table leaves alone.
pub open spec fn kept(
    keys: Seq<(Action, Seq<char>)>,
    table: Seq<(Action, Seq<char>)>,
    n: int,
) -> Seq<(Action, Seq<char>)>
    decreases n,
{
    if n <= 0 {
        Seq::empty()
    } else if overridden(table, keys[n - 1].0) {
        kept(keys, table, n - 1)
    } else {
        kept(keys, table, n - 1).push(keys[n - 1])
    }
}

/// The first `n` keys, read.
pub open spec fn read(keys: Seq<(Action, Seq<char>)>, n: int) -> Result<Seq<Bound>, ErrorView>
    decreases n,
{
    if n <= 0 {
        Ok(Seq::empty())
    } else {
        match read(keys, n - 1) {
            Err(e) => Err(e),
            Ok(before) => match key_of(keys[n - 1].1) {
                Some(key) => Ok(
                    before.push(Bound { action: keys[n - 1].0, key, text: keys[n - 1].1 }),
                ),
                None => Err(ErrorView::BadKey(keys[n - 1].1)),
            },
        }
    }
}

/// Whether two bound keys are the same key for different actions.
pub open spec fn clash(bound: Seq<Bound>, i: int, j: int) -> bool {
    bound[i].key == bound[j].key && bound[i].action != bound[j].action
}

/// The first of the first `n` bound keys that another action has already.
pub open spec fn first_clash(bound: Seq<Bound>, n: int) -> Option<int>
    decreases n,
{
    if n <= 0 {
        None
    } else {
        match first_clash(bound, n - 1) {
            Some(j) => Some(j),
            None => if exists|i: int| 0 <= i < n - 1 && #[trigger] clash(bound, i, n - 1) {
                Some(n - 1)
            } else {
                None
            },
        }
    }
}

/// The keys with the user's table over the defaults: a line of the table
/// replaces all default keys of its action, and no key has two actions.
pub open spec fn built(table: Seq<(Seq<char>, Seq<char>)>) -> Result<Seq<Bound>, ErrorView> {
    match named(table, table.len() as int) {
        Err(e) => Err(e),
        Ok(lines) => {
            let all = kept(default_keys(), lines, default_keys().len() as int) + lines;
            match read(all, all.len() as int) {
                Err(e) => Err(e),
                Ok(bound) => match first_clash(bound, bound.len() as int) {
                    Some(j) => Err(ErrorView::Taken(bound[j].text)),
                    None => Ok(bound),
                },
            }
        },
    }
}

/// The action of the first bound key from `i` on that is this key.
pub open spec fn action_from(bound: Seq<Bound>, key: Binding, i: int) -> Option<Action>
    decreases bound.len() - i,
{
    if i < 0 || i >= bound.len() {
        None
    } else if bound[i].key == key {
        Some(bound[i].action)
    } else {
        action_from(bound, key, i + 1)
    }
}

#[derive(Debug)]
pub struct Keymap {
    pub keys: Vec<(Action, Binding, String)>,
}

pub open spec fn bound_view(v: Seq<(Action, Binding, String)>) -> Seq<Bound> {
    v.map_values(|e: (Action, Binding, String)| Bound { action: e.0, key: e.1, text: e.2@ })
}

impl View for Keymap {
    type V = Seq<Bound>;

    open spec fn view(&self) -> Seq<Bound> {
        bound_view(self.keys@)
    }
}

pub open spec fn keymap_view(r: Result<Keymap, KeymapError>) -> Result<Seq<Bound>, ErrorView> {
    match r {
        Ok(k) => Ok(k@),
        Err(e) => Err(e@),
    }
}

pub open spec fn lines_result(r: Result<Vec<(Action, String)>, KeymapError>) -> Result<
    Seq<(Action, Seq<char>)>,
    ErrorView,
> {
    match r {
        Ok(v) => Ok(hints_view(v@)),
        Err(e) => Err(e@),
    }
}

proof fn lemma_named_error(table: Seq<(Seq<char>, Seq<char>)>, n: int, m: int)
    requires
        0 <= n <= m,
        named(table, n) is Err,
    ensures
        named(table, m) == named(table, n),
    decreases m,
{
    if n < m {
        lemma_named_error(table, n, m - 1);
    }
}

proof fn lemma_read_error(keys: Seq<(Action, Seq<char>)>, n: int, m: int)
    requires
        0 <= n <= m,
        read(keys, n) is Err,
    ensures
        read(keys, m) == read(keys, n),
    decreases m,
{
    if n < m {
        lemma_read_error(keys, n, m - 1);
    }
}

proof fn lemma_clash_found(bound: Seq<Bound>, n: int, m: int)
    requires
        0 <= n <= m,
        first_clash(bound, n) is Some,
    ensures
        first_clash(bound, m) == first_clash(bound, n),
    decreases m,
{
    if n < m {
        lemma_clash_found(bound, n, m - 1);
    }
}

fn read_lines(table: &Vec<(String, String)>) -> (r: Result<Vec<(Action, String)>, KeymapError>)
    ensures
        lines_result(r) == named(pairs_view(table@), table@.len() as int),
{
    let ghost all = pairs_view(table@);
    let mut out: Vec<(Action, String)> = Vec::new();
    assert(hints_view(out@) =~= Seq::<(Action, Seq<char>)>::empty());
    let mut i: usize = 0;
    while i < table.len()
        invariant
            i <= table@.len(),
            all == pairs_view(table@),
            named(all, i as int) == Ok::<Seq<(Action, Seq<char>)>, ErrorView>(hints_view(out@)),
        decreases table@.len() - i,
    {
        assert(all[i as int] == (table@[i as int].0@, table@[i as int].1@));
        match named_action(table[i].0.as_str()) {
            Some(a) => bind(&mut out, a, table[i].1.as_str()),
            None => {
                proof {
                    lemma_named_error(all, i + 1, all.len() as int);
                }
                return Err(KeymapError::UnknownAction(copy(table[i].0.as_str())));
            },
        }
        i += 1;
    }
    Ok(out)
}

fn is_overridden(table: &Vec<(Action, String)>, a: Action) -> (r: bool)
    ensures
        r == overridden(hints_view(table@), a),
{
    let ghost all = hints_view(table@);
    let mut i: usize = 0;
    while i < table.len()
        invariant
            i <= table@.len(),
            all == hints_view(table@),
            forall|j: int| 0 <= j < i ==> !#[trigger] binds(all, a, j),
        decreases table@.len() - i,
    {
        assert(all[i as int].0 == table@[i as int].0);
        if table[i].0 == a {
            assert(binds(all, a, i as int));
            return true;
        }
        i += 1;
    }
    false
}

fn is_taken(keys: &Vec<(Action, Binding, String)>, j: usize) -> (r: bool)
    requires
        j < keys@.len(),
    ensures
        r == (exists|i: int| 0 <= i < j && #[trigger] clash(bound_view(keys@), i, j as int)),
{
    let ghost all = bound_view(keys@);
    let mut i: usize = 0;
    while i < j
        invariant
            i <= j < keys@.len(),
            all == bound_view(keys@),
            forall|k: int| 0 <= k < i ==> !#[trigger] clash(all, k, j as int),
        decreases j - i,
    {
        if keys[i].1 == keys[j].1 && keys[i].0 != keys[j].0 {
            assert(clash(all, i as int, j as int));
            return true;
        }
        i += 1;
    }
    false
}

impl Keymap {
    /// The keys with the user's table (action names and keys) over the
    /// defaults.
    pub fn build(table: &Vec<(String, String)>) -> (r: Result<Keymap, KeymapError>)
        ensures
            keymap_view(r) == built(pairs_view(table@)),
    {
        let lines = match read_lines(table) {
            Ok(v) => v,
            Err(e) => {
                return Err(e);
            },
        };
        let ghost over = hints_view(lines@);
        let mut all = Keymap::keep(&lines);
        let ghost head = hints_view(all@);
        let mut i: usize = 0;
        assert(head + over.take(0) =~= head);
        while i < lines.len()
            invariant
                i <= lines@.len(),
                over == hints_view(lines@),
                hints_view(all@) == head + over.take(i as int),
            decreases lines@.len() - i,
        {
            assert(over[i as int] == (lines@[i as int].0, lines@[i as int].1@));
            bind(&mut all, lines[i].0, lines[i].1.as_str());
            i += 1;
            assert(hints_view(all@) =~= head + over.take(i as int));
        }
        assert(over.take(i as int) =~= over);
        let keys = match Keymap::read_keys(&all) {
            Ok(keys) => keys,
            Err(e) => {
                return Err(e);
            },
        };
        let ghost bound = bound_view(keys@);
        let mut j: usize = 0;
        while j < keys.len()
            invariant
                j <= keys@.len(),
                bound == bound_view(keys@),
                first_clash(bound, j as int) is None,
                built(pairs_view(table@)) == (match first_clash(bound, bound.len() as int) {
                    Some(j) => Err::<Seq<Bound>, ErrorView>(ErrorView::Taken(bound[j].text)),
                    None => Ok::<Seq<Bound>, ErrorView>(bound),
                }),
            decreases keys@.len() - j,
        {
            if is_taken(&keys, j) {
                proof {
                    lemma_clash_found(bound, j + 1, bound.len() as int);
                }
                return Err(KeymapError::Taken(copy(keys[j].2.as_str())));
            }
            j += 1;
        }
        Ok(Keymap { keys })
    }

    fn keep(lines: &Vec<(Action, String)>) -> (r: Vec<(Action, String)>)
        ensures
            hints_view(r@) == kept(
                default_keys(),
                hints_view(lines@),
                default_keys().len() as int,
            ),
    {
        let keys = defaults();
        let ghost all = hints_view(keys@);
        let ghost over = hints_view(lines@);
        let mut out: Vec<(Action, String)> = Vec::new();
        assert(hints_view(out@) =~= Seq::<(Action, Seq<char>)>::empty());
        let mut i: usize = 0;
        while i < keys.len()
            invariant
                i <= keys@.len(),
                all == hints_view(keys@),
                over == hints_view(lines@),
                hints_view(out@) == kept(all, over, i as int),
            decreases keys@.len() - i,
        {
            assert(all[i as int] == (keys@[i as int].0, keys@[i as int].1@));
            if !is_overridden(lines, keys[i].0) {
                bind(&mut out, keys[i].0, keys[i].1.as_str());
            }
            i += 1;
        }
        out
    }

    fn read_keys(keys: &Vec<(Action, String)>) -> (r: Result<
        Vec<(Action, Binding, String)>,
        KeymapError,
    >)
        ensures
            (match r {
                Ok(v) => read(hints_view(keys@), keys@.len() as int) == Ok::<
                    Seq<Bound>,
                    ErrorView,
                >(bound_view(v@)),
                Err(e) => read(hints_view(keys@), keys@.len() as int) == Err::<
                    Seq<Bound>,
                    ErrorView,
                >(e@),
            }),
    {
        let ghost all = hints_view(keys@);
        let mut out: Vec<(Action, Binding, String)> = Vec::new();
        assert(bound_view(out@) =~= Seq::<Bound>::empty());
        let mut i: usize = 0;
        while i < keys.len()
            invariant
                i <= keys@.len(),
                all == hints_view(keys@),
                read(all, i as int) == Ok::<Seq<Bound>, ErrorView>(bound_view(out@)),
            decreases keys@.len() - i,
        {
            assert(all[i as int] == (keys@[i as int].0, keys@[i as int].1@));
            match parse_key(keys[i].1.as_str()) {
                Some(key) => {
                    let ghost before = bound_view(out@);
                    out.push((keys[i].0, key, copy(keys[i].1.as_str())));
                    assert(bound_view(out@) =~= before.push(
                        Bound { action: all[i as int].0, key, text: all[i as int].1 },
                    ));
                },
                None => {
                    proof {
                        lemma_read_error(all, i + 1, all.len() as int);
                    }
                    return Err(KeymapError::BadKey(copy(keys[i].1.as_str())));
                },
            }
            i += 1;
        }
        Ok(out)
    }

    /// What a pressed key is bound to.
    pub fn action(&self, key: Key) -> (r: Option<Action>)
        ensures
            r == action_from(self@, Binding::of(key), 0),
    {
        let shift = match key.code {
            KeyCode::Char(_) => false,
            _ => key.shift,
        };
        let want = Binding { code: key.code, ctrl: key.ctrl, alt: key.alt, shift };
        let mut i: usize = 0;
        while i < self.keys.len()
            invariant
                i <= self.keys@.len(),
                want == Binding::of(key),
                action_from(self@, want, 0) == action_from(self@, want, i as int),
            decreases self.keys@.len() - i,
        {
            assert(self@[i as int].key == self.keys@[i as int].1);
            if self.keys[i].1 == want {
                return Some(self.keys[i].0);
            }
            i += 1;
        }
        None
    }

    /// The keys as they are shown to the user.
    pub fn hints(&self) -> (r: Hints)
        ensures
            r@ == self@.map_values(|b: Bound| (b.action, b.text)),
    {
        let mut keys: Vec<(Action, String)> = Vec::new();
        let ghost want = self@.map_values(|b: Bound| (b.action, b.text));
        let mut i: usize = 0;
        assert(hints_view(keys@) =~= want.take(0));
        while i < self.keys.len()
            invariant
                i <= self.keys@.len(),
                want == self@.map_values(|b: Bound| (b.action, b.text)),
                hints_view(keys@) == want.take(i as int),
            decreases self.keys@.len() - i,
        {
            assert(want[i as int] == (self.keys@[i as int].0, self.keys@[i as int].2@));
            bind(&mut keys, self.keys[i].0, self.keys[i].2.as_str());
            i += 1;
            assert(hints_view(keys@) =~= want.take(i as int));
        }
        assert(want.take(i as int) =~= want);
        Hints { keys }
    }
}

// ---- laws ------------------------------------------------------------------------

proof fn lemma_no_clash(bound: Seq<Bound>, n: int, i: int, j: int)
    requires
        first_clash(bound, n) is None,
        0 <= i < j < n,
    ensures
        !clash(bound, i, j),
    decreases n,
{
    if j < n - 1 {
        lemma_no_clash(bound, n - 1, i, j);
    }
}

proof fn lemma_action_from(bound: Seq<Bound>, key: Binding, i: int, k: int)
    requires
        first_clash(bound, bound.len() as int) is None,
        0 <= i <= k < bound.len(),
        bound[k].key == key,
    ensures
        action_from(bound, key, i) == Some(bound[k].action),
    decreases k - i,
{
    if bound[i].key == key {
        if i < k {
            lemma_no_clash(bound, bound.len() as int, i, k);
        }
    } else {
        lemma_action_from(bound, key, i + 1, k);
    }
}

/// A key that is in the table does what the table says, wherever it stands in
/// it: no key has two actions.
pub proof fn law_every_key_has_one_action(table: Seq<(Seq<char>, Seq<char>)>, k: int, key: Key)
    requires
        built(table) matches Ok(bound) && 0 <= k < bound.len() && bound[k].key == Binding::of(key),
    ensures
        action_from(built(table)->Ok_0, Binding::of(key), 0) == Some(built(table)->Ok_0[k].action),
{
    lemma_action_from(built(table)->Ok_0, Binding::of(key), 0, k);
}

proof fn lemma_kept(
    keys: Seq<(Action, Seq<char>)>,
    table: Seq<(Action, Seq<char>)>,
    n: int,
    i: int,
)
    requires
        0 <= n <= keys.len(),
        0 <= i < kept(keys, table, n).len(),
    ensures
        !overridden(table, kept(keys, table, n)[i].0),
    decreases n,
{
    if n > 0 && i < kept(keys, table, n - 1).len() {
        lemma_kept(keys, table, n - 1, i);
    }
}

proof fn lemma_read_keeps(keys: Seq<(Action, Seq<char>)>, n: int, i: int)
    requires
        0 <= i < n <= keys.len(),
        read(keys, n) is Ok,
    ensures
        read(keys, n)->Ok_0.len() == n,
        read(keys, n)->Ok_0[i].action == keys[i].0,
        read(keys, n)->Ok_0[i].text == keys[i].1,
        key_of(keys[i].1) == Some(read(keys, n)->Ok_0[i].key),
    decreases n,
{
    lemma_read_len(keys, n);
    lemma_read_len(keys, n - 1);
    if i < n - 1 {
        lemma_read_keeps(keys, n - 1, i);
    }
}

/// A line of the user's table replaces all default keys of its action: what an
/// action that the table names is bound to, the table says.
pub proof fn law_a_line_replaces_the_defaults(table: Seq<(Seq<char>, Seq<char>)>, i: int)
    requires
        built(table) is Ok,
        0 <= i < built(table)->Ok_0.len(),
        overridden(
            named(table, table.len() as int)->Ok_0,
            built(table)->Ok_0[i].action,
        ),
    ensures
        named(table, table.len() as int)->Ok_0.contains(
            (built(table)->Ok_0[i].action, built(table)->Ok_0[i].text),
        ),
{
    let lines = named(table, table.len() as int)->Ok_0;
    let head = kept(default_keys(), lines, default_keys().len() as int);
    let all = head + lines;
    lemma_read_len(all, all.len() as int);
    lemma_read_keeps(all, all.len() as int, i);
    if i < head.len() {
        lemma_kept(default_keys(), lines, default_keys().len() as int, i);
    } else {
        assert(lines[i - head.len()] == all[i]);
    }
}

proof fn lemma_read_len(keys: Seq<(Action, Seq<char>)>, n: int)
    requires
        0 <= n,
        read(keys, n) is Ok,
    ensures
        read(keys, n)->Ok_0.len() == n,
    decreases n,
{
    if n > 0 {
        lemma_read_len(keys, n - 1);
    }
}

// ---- what keys are called ----------------------------------------------------

/// A key's own name starts with no modifier.
proof fn lemma_names_are_bare(name: Seq<char>)
    requires
        key_named(name) is Some,
    ensures
        !starts_with(name, "ctrl+"@),
        !starts_with(name, "alt+"@),
        !starts_with(name, "shift+"@),
{
    reveal_strlit("ctrl+");
    reveal_strlit("alt+");
    reveal_strlit("shift+");
    reveal_strlit("space");
    reveal_strlit("enter");
    reveal_strlit("esc");
    reveal_strlit("tab");
    reveal_strlit("up");
    reveal_strlit("down");
    reveal_strlit("left");
    reveal_strlit("right");
    reveal_strlit("pgup");
    reveal_strlit("pgdn");
    reveal_strlit("home");
    reveal_strlit("end");
    assert("ctrl+"@.len() == 5 && "ctrl+"@[0] == 'c');
    assert("alt+"@.len() == 4 && "alt+"@[0] == 'a');
    assert("shift+"@.len() == 6);
    if starts_with(name, "ctrl+"@) {
        assert(name[0] == name.take(5)[0]);
    }
    if starts_with(name, "alt+"@) {
        assert(name[0] == name.take(4)[0]);
    }
}

proof fn lemma_prefix_read(p: Seq<char>, rest: Seq<char>)
    ensures
        without(p + rest, p) == (rest, true),
{
    assert((p + rest).take(p.len() as int) =~= p);
    assert((p + rest).skip(p.len() as int) =~= rest);
}

/// Every character is a key by itself.
pub proof fn law_a_character_names_its_key(c: char)
    ensures
        key_of(seq![c]) == Some(
            Binding { code: KeyCode::Char(c), ctrl: false, alt: false, shift: false },
        ),
{
    lemma_names_are_bare(seq![c]);
}

/// Modifiers in front of a key's name are that key with them; shift is part of
/// a character.
pub proof fn law_modifiers_go_with_any_key(name: Seq<char>, ctrl: bool, alt: bool, shift: bool)
    requires
        key_named(name) is Some,
    ensures
        ({
            let code = key_named(name)->0;
            let spelled = (if ctrl {
                "ctrl+"@
            } else {
                Seq::empty()
            }) + ((if alt {
                "alt+"@
            } else {
                Seq::empty()
            }) + ((if shift {
                "shift+"@
            } else {
                Seq::empty()
            }) + name));
            let pressed = Key { code, ctrl, alt, shift, kind: KeyKind::Press };
            &&& key_of(spelled) == Some(Binding::of(pressed))
            &&& key_of(spelled)->0.code == code
            &&& key_of(spelled)->0.ctrl == ctrl
            &&& key_of(spelled)->0.alt == alt
            &&& key_of(spelled)->0.shift == (shift && !(code is Char))
        }),
{
    lemma_names_are_bare(name);
    reveal_strlit("ctrl+");
    reveal_strlit("alt+");
    reveal_strlit("shift+");
    assert("ctrl+"@.len() == 5 && "ctrl+"@[0] == 'c');
    assert("alt+"@.len() == 4 && "alt+"@[0] == 'a');
    assert("shift+"@.len() == 6 && "shift+"@[0] == 's');
    let none = Seq::<char>::empty();
    let tail = (if shift {
        "shift+"@
    } else {
        none
    }) + name;
    let rest = (if alt {
        "alt+"@
    } else {
        none
    }) + tail;
    let spelled = (if ctrl {
        "ctrl+"@
    } else {
        none
    }) + rest;
    if shift {
        lemma_prefix_read("shift+"@, name);
        assert(tail[0] == 's');
    } else {
        assert(tail =~= name);
    }
    if alt {
        lemma_prefix_read("alt+"@, tail);
        assert(rest[0] == 'a');
    } else {
        assert(rest =~= tail);
    }
    if ctrl {
        lemma_prefix_read("ctrl+"@, rest);
        assert(spelled[0] == 'c');
    } else {
        assert(spelled =~= rest);
    }
    if starts_with(tail, "alt+"@) {
        assert(tail[0] == tail.take(4)[0]);
    }
    if starts_with(tail, "ctrl+"@) {
        assert(tail[0] == tail.take(5)[0]);
    }
    if starts_with(rest, "ctrl+"@) {
        assert(rest[0] == rest.take(5)[0]);
    }
}

/// What an action is called in the user's table; one has no name there.
pub open spec fn name_of(a: Action) -> Option<Seq<char>> {
    match a {
        Action::Down => Some("down"@),
        Action::Up => Some("up"@),
        Action::Top => Some("top"@),
        Action::Bottom => Some("bottom"@),
        Action::Edit => Some("edit"@),
        Action::Stage => Some("stage"@),
        Action::Unstage => Some("unstage"@),
        Action::Discard => Some("discard"@),
        Action::Commit => Some("commit"@),
        Action::Log => Some("log"@),
        Action::Annotate => Some("annotate"@),
        Action::Select => Some("select"@),
        Action::SendNotes => Some("send_notes"@),
        Action::NotesView => Some("notes_view"@),
        Action::Delete => Some("delete"@),
        Action::ToggleScope => Some("toggle_scope"@),
        Action::Refresh => Some("refresh"@),
        Action::Help => Some("help"@),
        Action::Quit => Some("quit"@),
        Action::HalfPageDown => Some("half_page_down"@),
        Action::HalfPageUp => Some("half_page_up"@),
        Action::DiffTop => Some("diff_top"@),
        Action::DiffBottom => Some("diff_bottom"@),
        Action::ScrollDown => Some("scroll_down"@),
        Action::ScrollUp => Some("scroll_up"@),
        Action::ToggleCached => None,
    }
}

/// Every action is found by its own name.
pub proof fn law_an_action_is_found_by_its_name(a: Action)
    ensures
        name_of(a) matches Some(name) ==> action_named(name) == Some(a),
{
    reveal_strlit("down");
    reveal_strlit("up");
    reveal_strlit("top");
    reveal_strlit("bottom");
    reveal_strlit("edit");
    reveal_strlit("stage");
    reveal_strlit("unstage");
    reveal_strlit("discard");
    reveal_strlit("commit");
    reveal_strlit("log");
    reveal_strlit("annotate");
    reveal_strlit("select");
    reveal_strlit("send_notes");
    reveal_strlit("notes_view");
    reveal_strlit("delete");
    reveal_strlit("toggle_scope");
    reveal_strlit("refresh");
    reveal_strlit("help");
    reveal_strlit("quit");
    reveal_strlit("half_page_down");
    reveal_strlit("half_page_up");
    reveal_strlit("diff_top");
    reveal_strlit("diff_bottom");
    reveal_strlit("scroll_down");
    reveal_strlit("scroll_up");
    assert("down"@.len() == 4);
    assert("up"@.len() == 2);
    assert("top"@.len() == 3);
    assert("bottom"@.len() == 6);
    assert("edit"@.len() == 4);
    assert("stage"@.len() == 5);
    assert("unstage"@.len() == 7);
    assert("discard"@.len() == 7);
    assert("commit"@.len() == 6);
    assert("log"@.len() == 3);
    assert("annotate"@.len() == 8);
    assert("select"@.len() == 6);
    assert("send_notes"@.len() == 10);
    assert("notes_view"@.len() == 10);
    assert("delete"@.len() == 6);
    assert("toggle_scope"@.len() == 12);
    assert("refresh"@.len() == 7);
    assert("help"@.len() == 4);
    assert("quit"@.len() == 4);
    assert("half_page_down"@.len() == 14);
    assert("half_page_up"@.len() == 12);
    assert("diff_top"@.len() == 8);
    assert("diff_bottom"@.len() == 11);
    assert("scroll_down"@.len() == 11);
    assert("scroll_up"@.len() == 9);
    assert("down"@[0] == 'd');
    assert("edit"@[0] == 'e');
    assert("help"@[0] == 'h');
    assert("quit"@[0] == 'q');
    assert("top"@[0] == 't');
    assert("log"@[0] == 'l');
    assert("bottom"@[0] == 'b');
    assert("commit"@[0] == 'c');
    assert("select"@[0] == 's');
    assert("delete"@[0] == 'd');
    assert("unstage"@[0] == 'u');
    assert("discard"@[0] == 'd');
    assert("refresh"@[0] == 'r');
    assert("annotate"@[0] == 'a');
    assert("diff_top"@[0] == 'd');
    assert("send_notes"@[0] == 's');
    assert("notes_view"@[0] == 'n');
    assert("toggle_scope"@[0] == 't');
    assert("half_page_up"@[0] == 'h');
    assert("diff_bottom"@[0] == 'd');
    assert("scroll_down"@[0] == 's');
}

/// The key that an action is shown with unless the user's table says otherwise.
pub open spec fn usual_key(a: Action) -> Seq<char> {
    match a {
        Action::Down => "j"@,
        Action::Up => "k"@,
        Action::Top => "g"@,
        Action::Bottom => "G"@,
        Action::Edit => "enter"@,
        Action::Stage => "s"@,
        Action::Unstage => "u"@,
        Action::Discard => "x"@,
        Action::Commit => "c"@,
        Action::Log => "l"@,
        Action::Annotate => "a"@,
        Action::Select => "v"@,
        Action::SendNotes => "p"@,
        Action::NotesView => "n"@,
        Action::Delete => "d"@,
        Action::ToggleScope => "w"@,
        Action::Refresh => "r"@,
        Action::Help => "?"@,
        Action::Quit => "q"@,
        Action::HalfPageDown => "ctrl+d"@,
        Action::HalfPageUp => "ctrl+u"@,
        Action::DiffTop => "home"@,
        Action::DiffBottom => "end"@,
        Action::ScrollDown => "J"@,
        Action::ScrollUp => "K"@,
        Action::ToggleCached => Seq::empty(),
    }
}

/// Without a table, every action is shown with its usual key.
pub proof fn law_actions_have_their_usual_keys(a: Action)
    ensures
        hint_from(default_keys(), a, 0) == usual_key(a),
{
    let keys = default_keys();
    let k: int = match a {
        Action::Down => 0,
        Action::Up => 2,
        Action::Top => 4,
        Action::Bottom => 5,
        Action::Edit => 6,
        Action::Stage => 7,
        Action::Unstage => 8,
        Action::Discard => 9,
        Action::Commit => 10,
        Action::Log => 11,
        Action::Annotate => 12,
        Action::Select => 13,
        Action::SendNotes => 14,
        Action::NotesView => 15,
        Action::Delete => 16,
        Action::ToggleScope => 17,
        Action::Refresh => 18,
        Action::Help => 19,
        Action::Quit => 20,
        Action::HalfPageDown => 22,
        Action::HalfPageUp => 24,
        Action::DiffTop => 26,
        Action::DiffBottom => 27,
        Action::ScrollDown => 28,
        Action::ScrollUp => 29,
        Action::ToggleCached => -1,
    };
    if k >= 0 {
        assert(keys[k] == (a, usual_key(a)));
        law_the_first_key_is_shown(keys, 0, k);
    } else {
        law_no_key_is_shown_without_one(keys, a, 0);
    }
}

/// What a key is called in the user's table, where it is no character.
pub open spec fn word_of(code: KeyCode) -> Option<Seq<char>> {
    match code {
        KeyCode::Enter => Some("enter"@),
        KeyCode::Esc => Some("esc"@),
        KeyCode::Tab => Some("tab"@),
        KeyCode::Up => Some("up"@),
        KeyCode::Down => Some("down"@),
        KeyCode::Left => Some("left"@),
        KeyCode::Right => Some("right"@),
        KeyCode::PageUp => Some("pgup"@),
        KeyCode::PageDown => Some("pgdn"@),
        KeyCode::Home => Some("home"@),
        KeyCode::End => Some("end"@),
        _ => None,
    }
}

/// Every key that is no character is found by its word.
pub proof fn law_a_key_is_found_by_its_word(code: KeyCode)
    ensures
        word_of(code) matches Some(word) ==> key_named(word) == Some(code),
        key_named("space"@) == Some(KeyCode::Char(' ')),
{
    reveal_strlit("enter");
    reveal_strlit("esc");
    reveal_strlit("tab");
    reveal_strlit("up");
    reveal_strlit("down");
    reveal_strlit("left");
    reveal_strlit("right");
    reveal_strlit("pgup");
    reveal_strlit("pgdn");
    reveal_strlit("home");
    reveal_strlit("end");
    reveal_strlit("space");
    assert("enter"@.len() == 5);
    assert("esc"@.len() == 3);
    assert("tab"@.len() == 3);
    assert("up"@.len() == 2);
    assert("down"@.len() == 4);
    assert("left"@.len() == 4);
    assert("right"@.len() == 5);
    assert("pgup"@.len() == 4);
    assert("pgdn"@.len() == 4);
    assert("home"@.len() == 4);
    assert("end"@.len() == 3);
    assert("space"@.len() == 5);
    assert("enter"@[0] == 'e');
    assert("right"@[0] == 'r');
    assert("space"@[0] == 's');
    assert("esc"@[0] == 'e');
    assert("esc"@[1] == 's');
    assert("tab"@[0] == 't');
    assert("tab"@[1] == 'a');
    assert("end"@[0] == 'e');
    assert("end"@[1] == 'n');
    assert("down"@[0] == 'd');
    assert("down"@[2] == 'w');
    assert("left"@[0] == 'l');
    assert("left"@[2] == 'f');
    assert("pgup"@[0] == 'p');
    assert("pgup"@[2] == 'u');
    assert("pgdn"@[0] == 'p');
    assert("pgdn"@[2] == 'd');
    assert("home"@[0] == 'h');
    assert("home"@[2] == 'm');
}

} // verus!
