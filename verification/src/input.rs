//! What the user does: keys, mouse events, and the actions keys are bound to.
use crate::text::copy;
use vstd::prelude::*;

verus! {

#[derive(Debug, Clone, Copy, PartialEq, Eq, Structural)]
pub enum KeyCode {
    Char(char),
    Enter,
    Esc,
    Backspace,
    Delete,
    Left,
    Right,
    Up,
    Down,
    Home,
    End,
    Tab,
    PageUp,
    PageDown,
    Other,
}

#[derive(Debug, Clone, Copy, PartialEq, Eq, Structural)]
pub enum KeyKind {
    Press,
    Repeat,
    Release,
}

/// A key with the modifiers held.
#[derive(Debug, Clone, Copy, PartialEq, Eq, Structural)]
pub struct Key {
    pub code: KeyCode,
    pub ctrl: bool,
    pub alt: bool,
    pub shift: bool,
    pub kind: KeyKind,
}

#[derive(Debug, Clone, Copy, PartialEq, Eq, Structural)]
pub enum MouseKind {
    ScrollDown,
    ScrollUp,
    /// The left button went down.
    LeftDown,
    /// The mouse moved with the left button down.
    LeftDrag,
    Other,
}

/// What a key is bound to.
#[derive(Debug, Clone, Copy, PartialEq, Eq, Structural)]
pub enum Action {
    Down,
    Up,
    Top,
    Bottom,
    Edit,
    Stage,
    Unstage,
    Discard,
    Commit,
    Log,
    Annotate,
    Select,
    SendNotes,
    NotesView,
    Delete,
    ToggleScope,
    ToggleCached,
    Refresh,
    Help,
    Quit,
    HalfPageDown,
    HalfPageUp,
    DiffTop,
    DiffBottom,
    ScrollDown,
    ScrollUp,
}

impl Key {
    /// A key pressed with no modifier.
    pub open spec fn bare(code: KeyCode) -> Key {
        Key { code, ctrl: false, alt: false, shift: false, kind: KeyKind::Press }
    }

    pub fn plain(code: KeyCode) -> (r: Key)
        ensures
            r == Key::bare(code),
    {
        Key { code, ctrl: false, alt: false, shift: false, kind: KeyKind::Press }
    }
}

/// The keys that actions are bound to, as they are shown to the user.
#[derive(Debug)]
pub struct Hints {
    pub keys: Vec<(Action, String)>,
}

pub open spec fn hints_view(s: Seq<(Action, String)>) -> Seq<(Action, Seq<char>)> {
    s.map_values(|p: (Action, String)| (p.0, p.1@))
}

/// The key shown for an action from position `i` on; empty where it has none.
pub open spec fn hint_from(s: Seq<(Action, Seq<char>)>, a: Action, i: int) -> Seq<char>
    decreases s.len() - i,
{
    if i < 0 || i >= s.len() {
        Seq::empty()
    } else if s[i].0 == a {
        s[i].1
    } else {
        hint_from(s, a, i + 1)
    }
}

impl View for Hints {
    type V = Seq<(Action, Seq<char>)>;

    open spec fn view(&self) -> Seq<(Action, Seq<char>)> {
        hints_view(self.keys@)
    }
}

impl Hints {
    /// The key shown for an action; empty where it has none.
    pub fn hint(&self, a: Action) -> (r: String)
        ensures
            r@ == hint_from(self@, a, 0),
    {
        let mut i: usize = 0;
        while i < self.keys.len()
            invariant
                i <= self.keys@.len(),
                hint_from(self@, a, i as int) == hint_from(self@, a, 0),
            decreases self.keys@.len() - i,
        {
            assert(self@[i as int] == (self.keys@[i as int].0, self.keys@[i as int].1@));
            if self.keys[i].0 == a {
                return copy(self.keys[i].1.as_str());
            }
            i += 1;
        }
        let none = String::new();
        assert(none@ =~= Seq::<char>::empty());
        none
    }
}

/// The key that is shown for an action is the first of its keys.
pub proof fn law_the_first_key_is_shown(s: Seq<(Action, Seq<char>)>, i: int, k: int)
    requires
        0 <= i <= k < s.len(),
        forall|j: int| i <= j < k ==> (#[trigger] s[j]).0 != s[k].0,
    ensures
        hint_from(s, s[k].0, i) == s[k].1,
    decreases k - i,
{
    if i < k {
        assert(s[i].0 != s[k].0);
        law_the_first_key_is_shown(s, i + 1, k);
    }
}

/// An action without a key is shown without one.
pub proof fn law_no_key_is_shown_without_one(s: Seq<(Action, Seq<char>)>, a: Action, i: int)
    requires
        0 <= i <= s.len(),
        forall|j: int| i <= j < s.len() ==> (#[trigger] s[j]).0 != a,
    ensures
        hint_from(s, a, i).len() == 0,
    decreases s.len() - i,
{
    if i < s.len() {
        assert(s[i].0 != a);
        law_no_key_is_shown_without_one(s, a, i + 1);
    }
}

} // verus!
