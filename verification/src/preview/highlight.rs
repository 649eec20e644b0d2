//! Syntax highlighting: per-line runs of text and colour. The renderer puts
//! the diff's backgrounds on top, so only token colours come from here.
use crate::style::{Rgb, Theme};
use crate::text::{chars_of, copy, lemma_strs_push, lines, lines_of, string_of, strs};
use syntect::easy::HighlightLines;
use syntect::highlighting::Theme as SyntaxTheme;
use syntect::parsing::SyntaxSet;
use two_face::theme::EmbeddedThemeName;
use vstd::prelude::*;

verus! {

broadcast use {vstd::string::group_string_axioms, lemma_strs_push};

/// A run of one line's text in a single colour.
#[derive(Debug, PartialEq, Eq)]
pub struct Run {
    pub text: String,
    pub color: Rgb,
}

#[verifier::ext_equal]
pub struct RunView {
    pub text: Seq<char>,
    pub color: Rgb,
}

impl View for Run {
    type V = RunView;

    open spec fn view(&self) -> RunView {
        RunView { text: self.text@, color: self.color }
    }
}

impl Clone for Run {
    fn clone(&self) -> (r: Run)
        ensures
            r@ == self@,
    {
        Run { text: self.text.clone(), color: self.color }
    }
}

pub open spec fn runs_view(s: Seq<Run>) -> Seq<RunView> {
    s.map_values(|r: Run| r@)
}

pub open spec fn run_lines_view(s: Seq<Vec<Run>>) -> Seq<Seq<RunView>> {
    s.map_values(|l: Vec<Run>| runs_view(l@))
}

pub broadcast proof fn lemma_runs_push(s: Seq<Run>, r: Run)
    ensures
        #[trigger] runs_view(s.push(r)) == runs_view(s).push(r@),
{
    assert(runs_view(s.push(r)) =~= runs_view(s).push(r@));
}

pub broadcast proof fn lemma_run_lines_push(s: Seq<Vec<Run>>, l: Vec<Run>)
    ensures
        #[trigger] run_lines_view(s.push(l)) == run_lines_view(s).push(runs_view(l@)),
{
    assert(run_lines_view(s.push(l)) =~= run_lines_view(s).push(runs_view(l@)));
}

/// A copy of a line's runs.
pub fn copy_runs(v: &Vec<Run>) -> (r: Vec<Run>)
    ensures
        runs_view(r@) == runs_view(v@),
{
    let mut out: Vec<Run> = Vec::new();
    let mut i: usize = 0;
    while i < v.len()
        invariant
            i <= v@.len(),
            out@.len() == i,
            forall|k: int| 0 <= k < i ==> (#[trigger] out@[k])@ == v@[k]@,
        decreases v@.len() - i,
    {
        out.push(v[i].clone());
        i += 1;
    }
    assert(runs_view(out@) =~= runs_view(v@));
    out
}

// ---- the highlighting engine -----------------------------------------------

/// `syntect::parsing::SyntaxSet`, the known grammars.
#[verifier::external_type_specification]
#[verifier::external_body]
pub struct ExSyntaxSet(SyntaxSet);

/// `syntect::easy::HighlightLines`, a highlighter at work on one text.
#[verifier::external_type_specification]
#[verifier::external_body]
pub struct ExHighlightLines<'a>(HighlightLines<'a>);

/// `syntect::highlighting::Theme`, the colours of a theme.
#[verifier::external_type_specification]
#[verifier::external_body]
pub struct ExSyntaxTheme(SyntaxTheme);

/// The themes in use, of those that `two_face` embeds.
#[derive(Debug, Clone, Copy, PartialEq, Eq, Structural)]
pub enum Embedded {
    InspiredGithub,
    OneHalfDark,
}

/// The embedded theme for a look.
pub open spec fn embedded(theme: Theme) -> Embedded {
    match theme {
        Theme::Light => Embedded::InspiredGithub,
        Theme::Dark => Embedded::OneHalfDark,
    }
}

/// The foreground colour of a theme that `two_face` embeds, where it sets one.
pub uninterp spec fn embedded_foreground(theme: Embedded) -> Option<Rgb>;

/// What a highlighter has been given: its theme, the token that its syntax was
/// found by, and the lines so far.
#[verifier::ext_equal]
pub struct Fed {
    pub theme: Embedded,
    pub token: Seq<char>,
    pub lines: Seq<Seq<char>>,
}

/// What a highlighter has been given, where its syntax and its theme are
/// embedded ones.
pub uninterp spec fn fed(engine: HighlightLines) -> Option<Fed>;

/// Whether `syntect` finds an embedded syntax by this token.
pub uninterp spec fn known_token(token: Seq<char>) -> bool;

/// What `syntect` makes of `line` behind what a highlighter was given before:
/// its pieces with their foreground colours, or `None` where the grammar failed.
pub uninterp spec fn line_tokens(before: Fed, line: Seq<char>) -> Option<Seq<(Seq<char>, Rgb)>>;

/// What comes of `lines`, fed one after the other to a fresh highlighter:
/// `None` where no syntax is known by `token`.
pub open spec fn token_runs(
    theme: Embedded,
    token: Seq<char>,
    lines: Seq<Seq<char>>,
) -> Option<Seq<Option<Seq<(Seq<char>, Rgb)>>>> {
    if known_token(token) {
        Some(
            Seq::new(
                lines.len(),
                |i: int| line_tokens(Fed { theme, token, lines: lines.take(i) }, lines[i]),
            ),
        )
    } else {
        None
    }
}

/// Whether these are the grammars that `two_face` embeds.
pub uninterp spec fn all_syntaxes(set: SyntaxSet) -> bool;

/// Which embedded theme this is, where it is one.
pub uninterp spec fn theme_of(theme: SyntaxTheme) -> Option<Embedded>;

/// `two_face::syntax::extra_newlines`: the embedded grammars.
#[verifier::external_body]
fn load_syntaxes() -> (r: SyntaxSet)
    ensures
        all_syntaxes(r),
{
    two_face::syntax::extra_newlines()
}

/// `two_face::theme::extra`, and `get` on the set that it gives: one embedded
/// theme.
#[verifier::external_body]
fn load_theme(theme: Embedded) -> (r: SyntaxTheme)
    ensures
        theme_of(r) == Some(theme),
{
    let name = match theme {
        Embedded::InspiredGithub => EmbeddedThemeName::InspiredGithub,
        Embedded::OneHalfDark => EmbeddedThemeName::OneHalfDark,
    };
    two_face::theme::extra().get(name).clone()
}

/// The `foreground` of a theme's `settings`, where it sets one.
#[verifier::external_body]
fn theme_foreground(theme: &SyntaxTheme) -> (r: Option<Rgb>)
    requires
        theme_of(*theme) is Some,
    ensures
        r == embedded_foreground(theme_of(*theme)->0),
{
    theme.settings.foreground.map(|c| (c.r, c.g, c.b))
}

pub open spec fn pieces_view(
    r: Option<Vec<Option<Vec<(String, Rgb)>>>>,
) -> Option<Seq<Option<Seq<(Seq<char>, Rgb)>>>> {
    match r {
        Some(v) => Some(v@.map_values(|l: Option<Vec<(String, Rgb)>>| line_pieces(l))),
        None => None,
    }
}

pub open spec fn line_pieces(l: Option<Vec<(String, Rgb)>>) -> Option<Seq<(Seq<char>, Rgb)>> {
    match l {
        Some(v) => Some(v@.map_values(|p: (String, Rgb)| (p.0@, p.1))),
        None => None,
    }
}

/// The first `n` pieces of a line put together.
pub open spec fn joined_pieces(p: Seq<(Seq<char>, Rgb)>, n: int) -> Seq<char>
    decreases n,
{
    if n <= 0 {
        Seq::empty()
    } else {
        joined_pieces(p, n - 1) + p[n - 1].0
    }
}

/// Whether the pieces of every line make up a beginning of that line.
pub open spec fn starts_lines(
    tokens: Seq<Option<Seq<(Seq<char>, Rgb)>>>,
    lines: Seq<Seq<char>>,
) -> bool {
    &&& tokens.len() == lines.len()
    &&& forall|i: int|
        0 <= i < tokens.len() ==> (#[trigger] tokens[i] matches Some(p) ==> joined_pieces(
            p,
            p.len() as int,
        ).is_prefix_of(lines[i]))
}

/// `SyntaxSet::find_syntax_by_token`, by extension and then by name, and
/// `HighlightLines::new` for the syntax that it finds.
#[verifier::external_body]
fn start<'a>(syntaxes: &SyntaxSet, theme: &'a SyntaxTheme, token: &str) -> (r: Option<
    HighlightLines<'a>,
>)
    requires
        all_syntaxes(*syntaxes),
        theme_of(*theme) is Some,
    ensures
        r is Some <==> known_token(token@),
        r is Some ==> fed(r->0) == Some(
            (Fed { theme: theme_of(*theme)->0, token: token@, lines: Seq::empty() }),
        ),
{
    Some(HighlightLines::new(syntaxes.find_syntax_by_token(token)?, theme))
}

/// `HighlightLines::highlight_line`: one more line. The texts of the pieces
/// stand in the line one behind the other from its start on. They make up the
/// whole line, unless a scope is to be restored that was never cleared: then
/// the pieces end there, so that they reach the end of the line is not stated.
#[verifier::external_body]
fn highlight_line(engine: &mut HighlightLines, syntaxes: &SyntaxSet, line: &str) -> (r: Option<
    Vec<(String, Rgb)>,
>)
    requires
        all_syntaxes(*syntaxes),
        fed(*old(engine)) is Some,
    ensures
        fed(*final(engine)) == Some(
            (Fed { lines: fed(*old(engine))->0.lines.push(line@), ..fed(*old(engine))->0 }),
        ),
        line_pieces(r) == line_tokens(fed(*old(engine))->0, line@),
        r is Some ==> joined_pieces(line_pieces(r)->0, r->0@.len() as int).is_prefix_of(line@),
{
    let paint = |c: syntect::highlighting::Color| (c.r, c.g, c.b);
    let regions = engine.highlight_line(line, syntaxes).ok()?;
    Some(regions.into_iter().map(|(s, t)| (t.to_string(), paint(s.foreground))).collect())
}

/// The pieces of `lines`, each line highlighted behind the ones before it.
fn highlight_lines(
    syntaxes: &SyntaxSet,
    theme: &SyntaxTheme,
    token: &str,
    lines: &Vec<String>,
) -> (r: Option<Vec<Option<Vec<(String, Rgb)>>>>)
    requires
        all_syntaxes(*syntaxes),
        theme_of(*theme) is Some,
    ensures
        pieces_view(r) == token_runs(theme_of(*theme)->0, token@, strs(lines@)),
        r is Some ==> starts_lines(pieces_view(r)->0, strs(lines@)),
{
    let mut engine = match start(syntaxes, theme, token) {
        Some(e) => e,
        None => return None,
    };
    let ghost name = theme_of(*theme)->0;
    let ghost all = strs(lines@);
    let mut out: Vec<Option<Vec<(String, Rgb)>>> = Vec::new();
    let mut i: usize = 0;
    assert(all.take(0) =~= Seq::<Seq<char>>::empty());
    while i < lines.len()
        invariant
            i <= lines@.len(),
            all == strs(lines@),
            all_syntaxes(*syntaxes),
            fed(engine) == Some((Fed { theme: name, token: token@, lines: all.take(i as int) })),
            out@.len() == i,
            forall|k: int|
                0 <= k < i ==> line_pieces(#[trigger] out@[k]) == line_tokens(
                    Fed { theme: name, token: token@, lines: all.take(k) },
                    all[k],
                ),
            forall|k: int|
                0 <= k < i ==> (line_pieces(#[trigger] out@[k]) matches Some(p) ==> joined_pieces(
                    p,
                    p.len() as int,
                ).is_prefix_of(all[k])),
        decreases lines@.len() - i,
    {
        assert(all.take(i + 1) =~= all.take(i as int).push(all[i as int]));
        let pieces = highlight_line(&mut engine, syntaxes, lines[i].as_str());
        out.push(pieces);
        i += 1;
    }
    let r = Some(out);
    proof {
        let got = pieces_view(r)->0;
        assert(got =~= token_runs(name, token@, all)->0);
        assert forall|k: int| 0 <= k < got.len() implies (#[trigger] got[k] matches Some(p)
            ==> joined_pieces(p, p.len() as int).is_prefix_of(all[k])) by {
            assert(got[k] == line_pieces(r->0@[k]));
        }
    }
    r
}

/// The syntax highlighter: the embedded syntaxes and one theme.
pub struct Highlighter {
    syntaxes: SyntaxSet,
    theme: SyntaxTheme,
    default_fg: Rgb,
}

/// The colour of text that the syntax says nothing of.
pub open spec fn fallback_fg(foreground: Option<Rgb>) -> Rgb {
    match foreground {
        Some(c) => c,
        None => (0xc8, 0xc8, 0xc8),
    }
}

/// `s` cut behind each line feed; the unterminated rest is the last line.
pub open spec fn with_endings(s: Seq<char>) -> Seq<Seq<char>>
    decreases s.len(),
{
    if s.len() == 0 {
        Seq::empty()
    } else {
        let before = with_endings(s.drop_last());
        if before.len() == 0 || before.last().last() == '\n' {
            before.push(seq![s.last()])
        } else {
            before.drop_last().push(before.last().push(s.last()))
        }
    }
}

/// `s` without the line feeds at its end.
pub open spec fn trim_feeds(s: Seq<char>) -> Seq<char>
    decreases s.len(),
{
    if s.len() > 0 && s.last() == '\n' {
        trim_feeds(s.drop_last())
    } else {
        s
    }
}

/// One plain run per line.
pub open spec fn plain_lines(content: Seq<char>, fg: Rgb) -> Seq<Seq<RunView>> {
    lines(content).map_values(|l: Seq<char>| seq![RunView { text: l, color: fg }])
}

/// One line's runs: its pieces without line feeds, or the whole line in the
/// default colour where the grammar failed.
pub open spec fn line_runs(
    pieces: Option<Seq<(Seq<char>, Rgb)>>,
    line: Seq<char>,
    fg: Rgb,
) -> Seq<RunView> {
    match pieces {
        Some(p) => p.map_values(
            |x: (Seq<char>, Rgb)| RunView { text: trim_feeds(x.0), color: x.1 },
        ),
        None => seq![RunView { text: trim_feeds(line), color: fg }],
    }
}

/// The runs of `content`, given what the engine made of its lines.
pub open spec fn colored(
    content: Seq<char>,
    tokens: Option<Seq<Option<Seq<(Seq<char>, Rgb)>>>>,
    fg: Rgb,
) -> Seq<Seq<RunView>> {
    match tokens {
        None => plain_lines(content, fg),
        Some(t) => Seq::new(
            with_endings(content).len(),
            |i: int| line_runs(t[i], with_endings(content)[i], fg),
        ),
    }
}

/// The runs that a highlighter gives `content` of a file with `extension`.
pub open spec fn highlighted(
    theme: Embedded,
    content: Seq<char>,
    extension: Option<Seq<char>>,
) -> Seq<Seq<RunView>> {
    let fg = fallback_fg(embedded_foreground(theme));
    match extension {
        Some(e) => colored(content, token_runs(theme, e, with_endings(content)), fg),
        None => plain_lines(content, fg),
    }
}

fn without_feeds(s: &str) -> (r: String)
    ensures
        r@ == trim_feeds(s@),
{
    let cs = chars_of(s);
    let mut n: usize = cs.len();
    assert(cs@.take(n as int) =~= cs@);
    while n > 0 && cs[n - 1] == '\n'
        invariant
            n <= cs@.len(),
            trim_feeds(cs@.take(n as int)) == trim_feeds(cs@),
        decreases n,
    {
        assert(cs@.take(n as int).drop_last() =~= cs@.take(n - 1));
        n -= 1;
    }
    let r = string_of(&cs, 0, n);
    assert(r@ =~= cs@.take(n as int));
    r
}

/// The lines of `s` with their endings.
pub fn lines_with_endings(s: &str) -> (r: Vec<String>)
    ensures
        strs(r@) == with_endings(s@),
{
    let cs = chars_of(s);
    let mut out: Vec<String> = Vec::new();
    let mut start: usize = 0;
    let mut i: usize = 0;
    let ghost done: Seq<Seq<char>> = Seq::empty();
    assert(strs(out@) =~= with_endings(cs@.take(0)));
    while i < cs.len()
        invariant
            start <= i <= cs@.len(),
            cs@ == s@,
            start < i ==> with_endings(cs@.take(i as int)) == strs(out@).push(
                cs@.subrange(start as int, i as int),
            ) && cs@[i - 1] != '\n',
            start == i ==> with_endings(cs@.take(i as int)) == strs(out@) && (i > 0 ==> strs(
                out@,
            ).len() > 0 && strs(out@).last().len() > 0 && strs(out@).last().last() == '\n'),
            i == 0 ==> strs(out@).len() == 0,
        decreases cs@.len() - i,
    {
        proof {
            let now = cs@.take(i + 1);
            assert(now.drop_last() =~= cs@.take(i as int));
            let cur = cs@.subrange(start as int, i as int);
            assert(cs@.subrange(start as int, i + 1) =~= cur.push(cs@[i as int]));
            if start < i {
                assert(cur.last() == cs@[i - 1]);
                assert(strs(out@).push(cur).drop_last() =~= strs(out@));
            } else {
                assert(cur =~= Seq::<char>::empty());
                assert(cur.push(cs@[i as int]) =~= seq![cs@[i as int]]);
            }
            assert(with_endings(now) == strs(out@).push(cs@.subrange(start as int, i + 1)));
        }
        if cs[i] == '\n' {
            let line = string_of(&cs, start, i + 1);
            assert(line@.last() == '\n');
            out.push(line);
            start = i + 1;
        }
        i += 1;
    }
    assert(cs@.take(i as int) =~= s@);
    if start < cs.len() {
        let line = string_of(&cs, start, cs.len());
        out.push(line);
    }
    out
}

/// The runs of `content`, given what the engine made of its lines.
pub fn color_lines(
    content: &str,
    tokens: &Option<Vec<Option<Vec<(String, Rgb)>>>>,
    fg: Rgb,
) -> (r: Vec<Vec<Run>>)
    requires
        tokens is Some ==> tokens->0@.len() == with_endings(content@).len(),
    ensures
        run_lines_view(r@) == colored(content@, pieces_view(*tokens), fg),
{
    broadcast use {lemma_runs_push, lemma_run_lines_push};

    let mut out: Vec<Vec<Run>> = Vec::new();
    let ghost want = colored(content@, pieces_view(*tokens), fg);
    match tokens {
        None => {
            let ls = lines_of(content);
            let mut i: usize = 0;
            assert(run_lines_view(out@) =~= want.take(0));
            while i < ls.len()
                invariant
                    i <= ls@.len(),
                    strs(ls@) == lines(content@),
                    want == plain_lines(content@, fg),
                    run_lines_view(out@) == want.take(i as int),
                decreases ls@.len() - i,
            {
                let mut line: Vec<Run> = Vec::new();
                line.push(Run { text: copy(ls[i].as_str()), color: fg });
                proof {
                    assert(strs(ls@)[i as int] == ls@[i as int]@);
                    assert(runs_view(line@) =~= want[i as int]);
                    assert(want.take(i + 1) =~= want.take(i as int).push(want[i as int]));
                }
                out.push(line);
                i += 1;
            }
            assert(want.take(i as int) =~= want);
        },
        Some(t) => {
            let ls = lines_with_endings(content);
            let ghost pieces = pieces_view(*tokens)->0;
            let mut i: usize = 0;
            assert(run_lines_view(out@) =~= want.take(0));
            while i < ls.len()
                invariant
                    i <= ls@.len(),
                    t@.len() == ls@.len(),
                    strs(ls@) == with_endings(content@),
                    pieces == t@.map_values(|l: Option<Vec<(String, Rgb)>>| line_pieces(l)),
                    want == Seq::new(
                        with_endings(content@).len(),
                        |i: int| line_runs(pieces[i], with_endings(content@)[i], fg),
                    ),
                    run_lines_view(out@) == want.take(i as int),
                decreases ls@.len() - i,
            {
                let mut line: Vec<Run> = Vec::new();
                let ghost this = want[i as int];
                proof {
                    assert(strs(ls@)[i as int] == ls@[i as int]@);
                    assert(pieces[i as int] == line_pieces(t@[i as int]));
                }
                match &t[i] {
                    Some(regions) => {
                        let mut k: usize = 0;
                        assert(runs_view(line@) =~= this.take(0));
                        while k < regions.len()
                            invariant
                                k <= regions@.len(),
                                this.len() == regions@.len(),
                                forall|j: int|
                                    0 <= j < this.len() ==> #[trigger] this[j] == (RunView {
                                        text: trim_feeds(regions@[j].0@),
                                        color: regions@[j].1,
                                    }),
                                runs_view(line@) == this.take(k as int),
                            decreases regions@.len() - k,
                        {
                            let run = Run {
                                text: without_feeds(regions[k].0.as_str()),
                                color: regions[k].1,
                            };
                            assert(run@ == this[k as int]);
                            assert(this.take(k + 1) =~= this.take(k as int).push(this[k as int]));
                            line.push(run);
                            k += 1;
                        }
                        assert(this.take(k as int) =~= this);
                    },
                    None => {
                        line.push(Run { text: without_feeds(ls[i].as_str()), color: fg });
                        assert(runs_view(line@) =~= this);
                    },
                }
                assert(want.take(i + 1) =~= want.take(i as int).push(this));
                out.push(line);
                i += 1;
            }
            assert(want.take(i as int) =~= want);
        },
    }
    out
}

impl Highlighter {
    /// The theme that it was made with.
    pub closed spec fn embedded(self) -> Embedded {
        theme_of(self.theme)->0
    }

    #[verifier::type_invariant]
    closed spec fn inv(self) -> bool {
        &&& all_syntaxes(self.syntaxes)
        &&& theme_of(self.theme) is Some
        &&& self.default_fg == fallback_fg(embedded_foreground(theme_of(self.theme)->0))
    }

    pub fn new(theme: Theme) -> (r: Highlighter)
        ensures
            r.embedded() == embedded(theme),
    {
        let name = match theme {
            Theme::Light => Embedded::InspiredGithub,
            Theme::Dark => Embedded::OneHalfDark,
        };
        let theme = load_theme(name);
        let default_fg: Rgb = match theme_foreground(&theme) {
            Some(c) => c,
            None => (0xc8, 0xc8, 0xc8),
        };
        Highlighter { syntaxes: load_syntaxes(), theme, default_fg }
    }

    /// The colour of text that the syntax says nothing of.
    pub fn default_fg(&self) -> (r: Rgb)
        ensures
            r == fallback_fg(embedded_foreground(self.embedded())),
    {
        proof {
            use_type_invariant(self);
        }
        self.default_fg
    }

    /// Highlight `content` line by line; each inner list is one line's runs.
    /// An unknown language gives one plain run per line.
    pub fn highlight(&self, content: &str, extension: Option<&str>) -> (r: Vec<Vec<Run>>)
        ensures
            run_lines_view(r@) == highlighted(
                self.embedded(),
                content@,
                match extension {
                    Some(e) => Some(e@),
                    None => None,
                },
            ),
            extension is Some && known_token(extension->0@) ==> starts_lines(
                token_runs(self.embedded(), extension->0@, with_endings(content@))->0,
                with_endings(content@),
            ),
    {
        let fg = self.default_fg();
        match extension {
            Some(e) => {
                let ls = lines_with_endings(content);
                proof {
                    use_type_invariant(self);
                }
                let tokens = highlight_lines(&self.syntaxes, &self.theme, e, &ls);
                color_lines(content, &tokens, fg)
            },
            None => color_lines(content, &None, fg),
        }
    }
}

// ---- laws ------------------------------------------------------------------------

/// The first `n` runs of a line put together.
pub open spec fn joined_runs(runs: Seq<RunView>, n: int) -> Seq<char>
    decreases n,
{
    if n <= 0 {
        Seq::empty()
    } else {
        joined_runs(runs, n - 1) + runs[n - 1].text
    }
}

/// Whether no line feed stands before the end of a line.
pub open spec fn one_line(s: Seq<char>) -> bool {
    forall|k: int| 0 <= k < s.len() - 1 ==> #[trigger] s[k] != '\n'
}

/// A line is not empty, and holds no line feed before its end.
pub proof fn lemma_endings_are_lines(s: Seq<char>, i: int)
    requires
        0 <= i < with_endings(s).len(),
    ensures
        one_line(with_endings(s)[i]),
        with_endings(s)[i].len() > 0,
    decreases s.len(),
{
    let before = with_endings(s.drop_last());
    if i < before.len() {
        lemma_endings_are_lines(s.drop_last(), i);
    }
}

proof fn lemma_plain_piece(s: Seq<char>)
    requires
        one_line(s),
    ensures
        trim_feeds(s) == if s.len() > 0 && s.last() == '\n' {
            s.drop_last()
        } else {
            s
        },
{
    if s.len() > 0 && s.last() == '\n' {
        let t = s.drop_last();
        assert(trim_feeds(s) == trim_feeds(t));
        if t.len() > 0 {
            assert(t.last() == s[s.len() - 2]);
        }
    }
}

proof fn lemma_trimmed_pieces(p: Seq<(Seq<char>, Rgb)>, n: int)
    requires
        0 <= n <= p.len(),
        one_line(joined_pieces(p, n)),
    ensures
        joined_runs(
            p.map_values(|x: (Seq<char>, Rgb)| RunView { text: trim_feeds(x.0), color: x.1 }),
            n,
        ) == trim_feeds(joined_pieces(p, n)),
    decreases n,
{
    let runs = p.map_values(|x: (Seq<char>, Rgb)| RunView { text: trim_feeds(x.0), color: x.1 });
    let whole = joined_pieces(p, n);
    lemma_plain_piece(whole);
    if n > 0 {
        let head = joined_pieces(p, n - 1);
        let last = p[n - 1].0;
        assert forall|k: int| 0 <= k < head.len() - 1 implies #[trigger] head[k] != '\n' by {
            assert(whole[k] == head[k]);
        }
        lemma_trimmed_pieces(p, n - 1);
        lemma_plain_piece(head);
        assert forall|k: int| 0 <= k < last.len() - 1 implies #[trigger] last[k] != '\n' by {
            assert(whole[head.len() + k] == last[k]);
        }
        lemma_plain_piece(last);
        if last.len() > 0 {
            assert(whole.last() == last.last());
            if head.len() > 0 {
                assert(whole[head.len() - 1] == head.last());
            }
            if last.last() == '\n' {
                assert(joined_runs(runs, n) =~= whole.drop_last());
            } else {
                assert(joined_runs(runs, n) =~= whole);
            }
        } else {
            assert(whole =~= head);
            assert(joined_runs(runs, n) =~= joined_runs(runs, n - 1));
        }
    } else {
        assert(whole =~= Seq::<char>::empty());
    }
}

/// Highlighting colours the text and adds nothing to it: the runs of a line put
/// together are a beginning of that line without its line feed, and all of it
/// where the grammar failed or the pieces make up the line.
pub proof fn law_highlighting_adds_no_text(
    content: Seq<char>,
    tokens: Seq<Option<Seq<(Seq<char>, Rgb)>>>,
    fg: Rgb,
    i: int,
)
    requires
        starts_lines(tokens, with_endings(content)),
        0 <= i < with_endings(content).len(),
    ensures
        ({
            let line = with_endings(content)[i];
            let runs = colored(content, Some(tokens), fg)[i];
            let text = joined_runs(runs, runs.len() as int);
            &&& text.is_prefix_of(trim_feeds(line))
            &&& (tokens[i] matches Some(p) ==> joined_pieces(p, p.len() as int) == line)
                ==> text == trim_feeds(line)
        }),
{
    let line = with_endings(content)[i];
    let runs = colored(content, Some(tokens), fg)[i];
    lemma_endings_are_lines(content, i);
    match tokens[i] {
        Some(p) => {
            let whole = joined_pieces(p, p.len() as int);
            assert forall|k: int| 0 <= k < whole.len() implies whole[k] == line[k] by {
                assert(line.subrange(0, whole.len() as int)[k] == line[k]);
            }
            assert(one_line(whole));
            lemma_trimmed_pieces(p, p.len() as int);
            lemma_plain_piece(line);
            lemma_plain_piece(whole);
            if whole.len() == line.len() {
                assert(whole =~= line);
            }
        },
        None => {
            assert(joined_runs(runs, 0) =~= Seq::<char>::empty());
            assert(joined_runs(runs, 1) =~= trim_feeds(line));
        },
    }
}

} // verus!
