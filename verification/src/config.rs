//! User configuration. Every key is optional; what is missing has its default.
use crate::git::Scope;
use crate::style::Theme;
use crate::text::{copy, copy_all, lemma_strs_push, strs};
use vstd::prelude::*;

verus! {

broadcast use {vstd::string::group_string_axioms, lemma_strs_push};

/// Which side the list pane sits on.
#[derive(Debug, Clone, Copy, PartialEq, Eq, Structural)]
pub enum ListSide {
    Right,
    Left,
}

/// Polling more often than this many milliseconds is not worth the git runs.
pub const MIN_POLL_MS: u64 = 250;

/// The most context lines that may be asked for around a change.
pub const MAX_CONTEXT: usize = 20;

#[derive(Debug)]
pub struct Config {
    /// Branch-scope base; empty = auto-detect.
    pub base: String,
    pub list_side: ListSide,
    /// Editor and its arguments; the file (and `+<line>`) is appended.
    pub editor: Vec<String>,
    /// Auto-refresh interval in ms; 0 disables polling.
    pub poll_ms: u64,
    pub show_untracked: bool,
    pub theme: Theme,
    /// The scope that the view opens in.
    pub default_scope: Scope,
    /// Unchanged lines kept around each change before folding.
    pub context_lines: usize,
}

#[verifier::ext_equal]
pub struct ConfigView {
    pub base: Seq<char>,
    pub list_side: ListSide,
    pub editor: Seq<Seq<char>>,
    pub poll_ms: u64,
    pub show_untracked: bool,
    pub theme: Theme,
    pub default_scope: Scope,
    pub context_lines: usize,
}

impl View for Config {
    type V = ConfigView;

    open spec fn view(&self) -> ConfigView {
        ConfigView {
            base: self.base@,
            list_side: self.list_side,
            editor: strs(self.editor@),
            poll_ms: self.poll_ms,
            show_untracked: self.show_untracked,
            theme: self.theme,
            default_scope: self.default_scope,
            context_lines: self.context_lines,
        }
    }
}

pub open spec fn default_config() -> ConfigView {
    ConfigView {
        base: Seq::empty(),
        list_side: ListSide::Right,
        editor: seq!["nvim"@],
        poll_ms: 2000,
        show_untracked: true,
        theme: Theme::Dark,
        default_scope: Scope::Worktree,
        context_lines: 3,
    }
}

impl ConfigView {
    /// The configuration with its numbers in range: at most `MAX_CONTEXT`
    /// context lines, and polling off or no faster than `MIN_POLL_MS`.
    pub open spec fn settled(self) -> ConfigView {
        ConfigView {
            poll_ms: if 0 < self.poll_ms < MIN_POLL_MS {
                MIN_POLL_MS
            } else {
                self.poll_ms
            },
            context_lines: if self.context_lines > MAX_CONTEXT {
                MAX_CONTEXT
            } else {
                self.context_lines
            },
            ..self
        }
    }
}

impl Default for Config {
    fn default() -> (r: Config)
        ensures
            r@ == default_config(),
    {
        let mut editor: Vec<String> = Vec::new();
        assert(strs(editor@) =~= Seq::<Seq<char>>::empty());
        editor.push(copy("nvim"));
        let base = String::new();
        assert(base@ =~= Seq::<char>::empty());
        let c = Config {
            base,
            list_side: ListSide::Right,
            editor,
            poll_ms: 2000,
            show_untracked: true,
            theme: Theme::Dark,
            default_scope: Scope::Worktree,
            context_lines: 3,
        };
        assert(c@ =~= default_config());
        c
    }
}

impl Clone for Config {
    fn clone(&self) -> (r: Config)
        ensures
            r@ == self@,
    {
        Config {
            base: copy(self.base.as_str()),
            list_side: self.list_side,
            editor: copy_all(&self.editor),
            poll_ms: self.poll_ms,
            show_untracked: self.show_untracked,
            theme: self.theme,
            default_scope: self.default_scope,
            context_lines: self.context_lines,
        }
    }
}

impl Config {
    /// Bring out-of-range numbers into range.
    pub fn settle(self) -> (r: Config)
        ensures
            r@ == self@.settled(),
    {
        let mut c = self;
        if c.poll_ms > 0 && c.poll_ms < MIN_POLL_MS {
            c.poll_ms = MIN_POLL_MS;
        }
        if c.context_lines > MAX_CONTEXT {
            c.context_lines = MAX_CONTEXT;
        }
        c
    }
}

/// Settled numbers are in range: polling is off or at least a quarter of a
/// second apart, and there are at most twenty context lines. What was in range
/// is kept.
pub proof fn law_settling_brings_numbers_into_range(c: ConfigView)
    ensures
        c.settled().poll_ms == 0 || c.settled().poll_ms >= 250,
        c.settled().poll_ms == 0 <==> c.poll_ms == 0,
        c.settled().context_lines <= 20,
        c.poll_ms >= 250 ==> c.settled().poll_ms == c.poll_ms,
        c.context_lines <= 20 ==> c.settled().context_lines == c.context_lines,
        c.settled().settled() == c.settled(),
        c.settled() == (ConfigView {
            poll_ms: c.settled().poll_ms,
            context_lines: c.settled().context_lines,
            ..c
        }),
{
}

} // verus!
