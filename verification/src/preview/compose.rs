//! The inline note composer: the text area spliced into the diff under the
//! lines being commented on.
use crate::input::{Key, KeyCode, KeyKind};
use crate::text::{is_space, lemma_trim_end_parts, opt_str, trim_end, without_trailing_space};
use crate::textarea::{
    law_home_and_end_are_the_ends_of_the_row, law_the_caret_goes_to_the_next_row,
    law_typed_text_stands_at_the_caret, Editing, TextArea,
};
use vstd::prelude::*;

verus! {

/// An open composer.
#[derive(Debug)]
pub struct Composer {
    pub input: TextArea,
    /// The note being rewritten, or `None` when this is a new one.
    pub editing: Option<u64>,
}

pub struct ComposerView {
    pub input: Editing,
    pub editing: Option<u64>,
}

impl View for Composer {
    type V = ComposerView;

    open spec fn view(&self) -> ComposerView {
        ComposerView { input: self.input@, editing: self.editing }
    }
}

/// What the pane should do after handing a key to the composer.
#[derive(Debug, Clone, Copy, PartialEq, Eq, Structural)]
pub enum Outcome {
    /// The text or the caret changed: draw the box again and keep it in view.
    Edited,
    Save,
    Cancel,
    /// Not a key the composer wants; nothing to redraw.
    Ignored,
}

/// What a key asks for, and the text area after it. Enter saves; with any
/// modifier it inserts a line feed, and so does `ctrl+j`, for terminals that
/// report shift+enter as a plain enter.
pub open spec fn composed(e: Editing, key: Key, width: nat) -> (Outcome, Editing) {
    let edited = |x: Editing| (Outcome::Edited, x);
    if key.kind == KeyKind::Release {
        (Outcome::Ignored, e)
    } else {
        match key.code {
            KeyCode::Enter => if key.shift || key.alt || key.ctrl {
                edited(e.inserted('\n'))
            } else {
                (Outcome::Save, e)
            },
            KeyCode::Esc => (Outcome::Cancel, e),
            KeyCode::Backspace => if key.ctrl || key.alt {
                edited(e.word_deleted())
            } else {
                edited(e.backspaced())
            },
            KeyCode::Delete => edited(e.deleted()),
            KeyCode::Left => edited(e.moved_left()),
            KeyCode::Right => edited(e.moved_right()),
            KeyCode::Up => edited(e.moved_vertically(width, -1)),
            KeyCode::Down => edited(e.moved_vertically(width, 1)),
            KeyCode::Home => edited(e.moved_home(width)),
            KeyCode::End => edited(e.moved_end(width)),
            KeyCode::Char(c) => if key.ctrl {
                if c == 'j' {
                    edited(e.inserted('\n'))
                } else if c == 'u' {
                    edited(Editing { text: Seq::empty(), at: 0 })
                } else if c == 'w' {
                    edited(e.word_deleted())
                } else if c == 'a' {
                    edited(e.moved_home(width))
                } else if c == 'e' {
                    edited(e.moved_end(width))
                } else {
                    (Outcome::Ignored, e)
                }
            } else if key.alt {
                (Outcome::Ignored, e)
            } else {
                edited(e.inserted(c))
            },
            _ => (Outcome::Ignored, e),
        }
    }
}

/// The text of a finished note; none when it is empty.
pub open spec fn finished(text: Seq<char>) -> Option<Seq<char>> {
    if trim_end(text).len() == 0 {
        None
    } else {
        Some(trim_end(text))
    }
}

/// Type a key into a text area; says what else it asks for.
pub fn type_key(input: &mut TextArea, ev: Key, width: usize) -> (r: Outcome)
    ensures
        r == composed(old(input)@, ev, width as nat).0,
        final(input)@ == composed(old(input)@, ev, width as nat).1,
{
    if ev.kind == KeyKind::Release {
        return Outcome::Ignored;
    }
    match ev.code {
        KeyCode::Enter => {
            if ev.shift || ev.alt || ev.ctrl {
                input.insert_newline();
            } else {
                return Outcome::Save;
            }
        },
        KeyCode::Esc => {
            return Outcome::Cancel;
        },
        KeyCode::Backspace => {
            if ev.ctrl || ev.alt {
                input.delete_word();
            } else {
                input.backspace();
            }
        },
        KeyCode::Delete => input.delete(),
        KeyCode::Left => input.move_left(),
        KeyCode::Right => input.move_right(),
        KeyCode::Up => input.move_up(width),
        KeyCode::Down => input.move_down(width),
        KeyCode::Home => input.move_home(width),
        KeyCode::End => input.move_end(width),
        KeyCode::Char(c) => {
            if ev.ctrl {
                if c == 'j' {
                    input.insert_newline();
                } else if c == 'u' {
                    input.clear();
                } else if c == 'w' {
                    input.delete_word();
                } else if c == 'a' {
                    input.move_home(width);
                } else if c == 'e' {
                    input.move_end(width);
                } else {
                    return Outcome::Ignored;
                }
            } else if ev.alt {
                return Outcome::Ignored;
            } else {
                input.insert(c);
            }
        },
        _ => {
            return Outcome::Ignored;
        },
    }
    Outcome::Edited
}

impl Composer {
    pub fn new(text: String, editing: Option<u64>) -> (r: Composer)
        ensures
            r@ == (ComposerView {
                input: Editing { text: text@, at: text@.len() as int },
                editing,
            }),
    {
        Composer { input: TextArea::new(text), editing }
    }

    /// Handle a key; says what it asks of the pane around the composer.
    pub fn key(&mut self, ev: Key, width: usize) -> (r: Outcome)
        ensures
            r == composed(old(self)@.input, ev, width as nat).0,
            final(self)@.input == composed(old(self)@.input, ev, width as nat).1,
            final(self)@.editing == old(self)@.editing,
    {
        type_key(&mut self.input, ev, width)
    }

    /// The note's text, or `None` when it is empty: an empty note is a cancel,
    /// since there is nothing to send an agent.
    pub fn finish(self) -> (r: Option<String>)
        ensures
            opt_str(r) == finished(self@.input.text),
    {
        let text = without_trailing_space(self.input.text());
        if text.as_str().is_empty() {
            None
        } else {
            Some(text)
        }
    }
}

/// Only enter saves and only escape cancels; every other key leaves the
/// composer open.
pub proof fn law_only_enter_saves(e: Editing, key: Key, width: nat)
    ensures
        composed(e, key, width).0 == Outcome::Save ==> key.code == KeyCode::Enter && !key.shift
            && !key.alt && !key.ctrl,
        composed(e, key, width).0 == Outcome::Cancel ==> key.code == KeyCode::Esc,
        composed(e, key, width).0 != Outcome::Edited ==> composed(e, key, width).1 == e,
{
}

// ---- what typing does ----------------------------------------------------------------

/// Without a modifier, a character is typed at the caret, and the keys of the
/// caret and of deletion do what they are called.
pub proof fn law_plain_keys_edit_at_the_caret(
    before: Seq<char>,
    behind: Seq<char>,
    key: Key,
    width: nat,
    c: char,
)
    requires
        key.kind == KeyKind::Press,
        !key.ctrl && !key.alt && !key.shift,
    ensures
        ({
            let e = Editing { text: before + behind, at: before.len() as int };
            let of = |code: KeyCode| composed(e, Key { code, ..key }, width);
            &&& of(KeyCode::Char(c)) == (
                Outcome::Edited,
                Editing { text: before.push(c) + behind, at: before.len() as int + 1 },
            )
            &&& of(KeyCode::Backspace).1.text == (if before.len() > 0 {
                before.drop_last()
            } else {
                before
            }) + behind
            &&& of(KeyCode::Delete).1.text == before + (if behind.len() > 0 {
                behind.drop_first()
            } else {
                behind
            })
            &&& of(KeyCode::Left).1 == (Editing {
                at: if before.len() > 0 {
                    before.len() - 1
                } else {
                    0
                },
                ..e
            })
            &&& of(KeyCode::Right).1 == (Editing {
                at: if behind.len() > 0 {
                    before.len() as int + 1
                } else {
                    before.len() as int
                },
                ..e
            })
            &&& of(KeyCode::Home).1.at <= e.at <= of(KeyCode::End).1.at
            &&& of(KeyCode::Enter) == (Outcome::Save, e)
            &&& of(KeyCode::Esc) == (Outcome::Cancel, e)
        }),
{
    let e = Editing { text: before + behind, at: before.len() as int };
    law_typed_text_stands_at_the_caret(before, behind, c, c);
    law_home_and_end_are_the_ends_of_the_row(e, width);
    if before.len() > 0 {
        assert(e.backspaced().text =~= before.drop_last() + behind);
    }
    if behind.len() > 0 {
        assert(e.deleted().text =~= before + behind.drop_first());
    }
}

/// Up goes to the row above and down to the row below, where there is one.
pub proof fn law_up_and_down_change_the_row(e: Editing, key: Key, width: nat)
    requires
        e.wf(),
        key.kind == KeyKind::Press,
    ensures
        e.can_move(width, -1) ==> composed(e, Key { code: KeyCode::Up, ..key }, width).1.row(width)
            == e.row(width) - 1,
        e.can_move(width, 1) ==> composed(e, Key { code: KeyCode::Down, ..key }, width).1.row(width)
            == e.row(width) + 1,
{
    if e.can_move(width, -1) {
        law_the_caret_goes_to_the_next_row(e, width, -1);
    }
    if e.can_move(width, 1) {
        law_the_caret_goes_to_the_next_row(e, width, 1);
    }
}

/// Enter with a modifier, and `ctrl+j`, put a line feed at the caret. `ctrl+u`
/// empties the text, and a word goes by `ctrl+w` as by backspace with a modifier.
pub proof fn law_modified_keys_edit_more(e: Editing, key: Key, width: nat)
    requires
        e.wf(),
        key.kind == KeyKind::Press,
    ensures
        key.shift || key.alt || key.ctrl ==> composed(
            e,
            Key { code: KeyCode::Enter, ..key },
            width,
        ) == (Outcome::Edited, e.inserted('\n')),
        composed(e, Key { code: KeyCode::Char('j'), ctrl: true, ..key }, width) == (
            Outcome::Edited,
            e.inserted('\n'),
        ),
        composed(
            e,
            Key { code: KeyCode::Char('u'), ctrl: true, ..key },
            width,
        ).1.text.len() == 0,
        composed(e, Key { code: KeyCode::Char('w'), ctrl: true, ..key }, width) == composed(
            e,
            Key { code: KeyCode::Backspace, ctrl: true, ..key },
            width,
        ),
        composed(
            e,
            Key { code: KeyCode::Backspace, alt: true, ctrl: false, ..key },
            width,
        ).1 == e.word_deleted(),
{
}

/// A finished note is the text without the white space at its end; a text of
/// white space alone is no note.
pub proof fn law_a_finished_note_is_the_text(text: Seq<char>)
    ensures
        match finished(text) {
            Some(t) => t.len() > 0 && t == text.take(t.len() as int) && !is_space(t.last())
                && forall|k: int| t.len() <= k < text.len() ==> is_space(#[trigger] text[k]),
            None => forall|k: int| 0 <= k < text.len() ==> is_space(#[trigger] text[k]),
        },
{
    lemma_trim_end_parts(text);
    let n = trim_end(text).len() as int;
    assert forall|k: int| n <= k < text.len() implies is_space(#[trigger] text[k]) by {
        assert(text.skip(n)[k - n] == text[k]);
    }
}

} // verus!
