//! Text primitives: the mathematical model of the string operations that the
//! rest of the library is written with, and their executable counterparts.
//!
//! A string is viewed as a sequence of characters (`Seq<char>`). Positions are
//! character positions; `byte_len` gives the byte offset that belongs to one.
use vstd::prelude::*;
use vstd::utf8::encode_utf8;

verus! {

broadcast use vstd::string::group_string_axioms;

/// `String::push` appends one character to the end of the string.
pub assume_specification[ String::push ](s: &mut String, c: char)
    ensures
        final(s)@ == old(s)@.push(c),
;

// ---- characters and bytes --------------------------------------------------

/// Bytes that `c` takes in UTF-8.
pub open spec fn utf8_len(c: char) -> nat {
    if c as u32 <= 0x7f {
        1
    } else if c as u32 <= 0x7ff {
        2
    } else if c as u32 <= 0xffff {
        3
    } else {
        4
    }
}

/// Bytes that `s` takes in UTF-8.
pub open spec fn byte_len(s: Seq<char>) -> nat
    decreases s.len(),
{
    if s.len() == 0 {
        0
    } else {
        byte_len(s.drop_last()) + utf8_len(s.last())
    }
}

/// The characters of a list of strings.
pub open spec fn strs(v: Seq<String>) -> Seq<Seq<char>> {
    v.map_values(|s: String| s@)
}

/// The characters of an optional string.
pub open spec fn opt_str(s: Option<String>) -> Option<Seq<char>> {
    match s {
        Some(t) => Some(t@),
        None => None,
    }
}

/// Appending a string appends its characters.
pub broadcast proof fn lemma_strs_push(v: Seq<String>, s: String)
    ensures
        #[trigger] strs(v.push(s)) == strs(v).push(s@),
{
    assert(strs(v.push(s)) =~= strs(v).push(s@));
}

pub proof fn lemma_byte_len_concat(a: Seq<char>, b: Seq<char>)
    ensures
        byte_len(a + b) == byte_len(a) + byte_len(b),
    decreases b.len(),
{
    if b.len() == 0 {
        assert(a + b =~= a);
    } else {
        assert((a + b).drop_last() =~= a + b.drop_last());
        lemma_byte_len_concat(a, b.drop_last());
    }
}

pub proof fn lemma_byte_len_mono(s: Seq<char>, i: int, j: int)
    requires
        0 <= i <= j <= s.len(),
    ensures
        byte_len(s.take(i)) + (j - i) <= byte_len(s.take(j)),
        byte_len(s.take(j)) <= byte_len(s),
    decreases s.len() - i,
{
    if i < j {
        assert(s.take(i + 1).drop_last() =~= s.take(i));
        lemma_byte_len_mono(s, i + 1, j);
    } else if j < s.len() {
        assert(s.take(j + 1).drop_last() =~= s.take(j));
        lemma_byte_len_mono(s, j + 1, j + 1);
    } else {
        assert(s.take(j) =~= s);
    }
}

/// `byte_len` is the length of the UTF-8 encoding.
pub proof fn lemma_byte_len_is_encoded_len(s: Seq<char>)
    ensures
        byte_len(s) == encode_utf8(s).len(),
    decreases s.len(),
{
    if s.len() > 0 {
        let first = seq![s[0]];
        let rest = s.drop_first();
        assert(s =~= first + rest);
        lemma_byte_len_concat(first, rest);
        lemma_byte_len_is_encoded_len(rest);
        assert(first.drop_last() =~= Seq::<char>::empty());
        assert(byte_len(first) == utf8_len(s[0])) by {
            assert(byte_len(first.drop_last()) == 0);
        }
        vstd::utf8::char_is_scalar(s[0]);
        assert(vstd::utf8::encode_scalar(s[0] as u32).len() == utf8_len(s[0]));
    }
}

/// Bytes that `c` takes in UTF-8.
pub fn char_len(c: char) -> (n: usize)
    ensures
        n == utf8_len(c),
        1 <= n <= 4,
{
    let v: u32 = c as u32;
    if v <= 0x7f {
        1
    } else if v <= 0x7ff {
        2
    } else if v <= 0xffff {
        3
    } else {
        4
    }
}

/// The characters of `s`.
pub fn chars_of(s: &str) -> (r: Vec<char>)
    ensures
        r@ == s@,
{
    let mut out: Vec<char> = Vec::new();
    for c in it: s.chars()
        invariant
            out@ == it.seq().take(it.index()),
            it.seq() == s@,
    {
        out.push(c);
    }
    assert(out@ =~= s@);
    out
}

/// The string made of `cs[from..to]`.
pub fn string_of(cs: &Vec<char>, from: usize, to: usize) -> (r: String)
    requires
        from <= to <= cs@.len(),
    ensures
        r@ == cs@.subrange(from as int, to as int),
{
    let mut out = String::new();
    let mut i: usize = from;
    while i < to
        invariant
            from <= i <= to <= cs@.len(),
            out@ == cs@.subrange(from as int, i as int),
        decreases to - i,
    {
        out.push(cs[i]);
        i += 1;
        assert(cs@.subrange(from as int, i as int).drop_last() =~= cs@.subrange(
            from as int,
            i - 1,
        ));
    }
    out
}

/// The byte length of `s` fits the address space.
pub fn len_bytes(s: &str) -> (n: usize)
    ensures
        n == byte_len(s@),
{
    proof {
        lemma_byte_len_is_encoded_len(s@);
    }
    s.as_bytes().len()
}

/// Whether `a` and `b` hold the same characters.
pub fn same(a: &str, b: &str) -> (r: bool)
    ensures
        r == (a@ == b@),
{
    a.to_owned() == b.to_owned()
}

/// A copy of `s`.
pub fn copy(s: &str) -> (r: String)
    ensures
        r@ == s@,
{
    s.to_owned()
}

/// A copy of an optional string.
pub fn copy_opt(s: &Option<String>) -> (r: Option<String>)
    ensures
        opt_str(r) == opt_str(*s),
{
    match s {
        Some(t) => Some(copy(t.as_str())),
        None => None,
    }
}

/// A copy of a list of strings.
pub fn copy_all(v: &Vec<String>) -> (r: Vec<String>)
    ensures
        strs(r@) == strs(v@),
{
    let mut out: Vec<String> = Vec::new();
    let mut i: usize = 0;
    while i < v.len()
        invariant
            i <= v@.len(),
            strs(out@) == strs(v@).take(i as int),
        decreases v@.len() - i,
    {
        proof {
            assert(strs(v@).take(i + 1) =~= strs(v@).take(i as int).push(v@[i as int]@));
        }
        let ghost before = out@;
        out.push(copy(v[i].as_str()));
        i += 1;
        proof {
            lemma_strs_push(before, out@.last());
            assert(out@ =~= before.push(out@.last()));
        }
    }
    assert(strs(v@).take(i as int) =~= strs(v@));
    out
}

/// Put `s` behind the words.
pub fn arg(words: &mut Vec<String>, s: &str)
    ensures
        strs(final(words)@) == strs(old(words)@).push(s@),
{
    let word = copy(s);
    proof {
        lemma_strs_push(words@, word);
    }
    words.push(word);
}

pub fn no_args() -> (r: Vec<String>)
    ensures
        strs(r@) == Seq::<Seq<char>>::empty(),
{
    let r: Vec<String> = Vec::new();
    assert(strs(r@) =~= Seq::<Seq<char>>::empty());
    r
}

/// Put all of `more` behind the words.
pub fn push_all(words: &mut Vec<String>, more: &Vec<String>)
    ensures
        strs(final(words)@) == strs(old(words)@) + strs(more@),
{
    let ghost head = strs(words@);
    let mut i: usize = 0;
    assert(head + strs(more@).take(0) =~= head);
    while i < more.len()
        invariant
            i <= more@.len(),
            strs(words@) == head + strs(more@).take(i as int),
        decreases more@.len() - i,
    {
        proof {
            assert((head + strs(more@).take(i as int)).push(more@[i as int]@) =~= head + strs(
                more@,
            ).take(i + 1));
        }
        arg(words, more[i].as_str());
        i += 1;
    }
    assert(strs(more@).take(i as int) =~= strs(more@));
}

/// Append `t` to `s`.
pub fn append(s: &mut String, t: &str)
    ensures
        final(s)@ == old(s)@ + t@,
{
    s.append(t);
}

// ---- white space and trimming ----------------------------------------------

/// The characters with Unicode's `White_Space` property.
pub open spec fn is_space(c: char) -> bool {
    let v = c as u32;
    ||| 0x09 <= v <= 0x0d
    ||| v == 0x20
    ||| v == 0x85
    ||| v == 0xa0
    ||| v == 0x1680
    ||| 0x2000 <= v <= 0x200a
    ||| v == 0x2028
    ||| v == 0x2029
    ||| v == 0x202f
    ||| v == 0x205f
    ||| v == 0x3000
}

pub fn is_whitespace(c: char) -> (r: bool)
    ensures
        r == is_space(c),
{
    let v: u32 = c as u32;
    (0x09 <= v && v <= 0x0d) || v == 0x20 || v == 0x85 || v == 0xa0 || v == 0x1680 || (0x2000 <= v
        && v <= 0x200a) || v == 0x2028 || v == 0x2029 || v == 0x202f || v == 0x205f || v == 0x3000
}

/// `s` without its trailing white space.
pub open spec fn trim_end(s: Seq<char>) -> Seq<char>
    decreases s.len(),
{
    if s.len() > 0 && is_space(s.last()) {
        trim_end(s.drop_last())
    } else {
        s
    }
}

/// `s` without its leading white space.
pub open spec fn trim_start(s: Seq<char>) -> Seq<char>
    decreases s.len(),
{
    if s.len() > 0 && is_space(s[0]) {
        trim_start(s.drop_first())
    } else {
        s
    }
}

/// `s` without the white space around it.
pub open spec fn trim(s: Seq<char>) -> Seq<char> {
    trim_end(trim_start(s))
}

/// Where the white space at the end of `cs[from..to]` starts.
pub fn trimmed_end(cs: &Vec<char>, from: usize, to: usize) -> (r: usize)
    requires
        from <= to <= cs@.len(),
    ensures
        from <= r <= to,
        cs@.subrange(from as int, r as int) == trim_end(cs@.subrange(from as int, to as int)),
{
    let mut end: usize = to;
    while end > from && is_whitespace(cs[end - 1])
        invariant
            from <= end <= to <= cs@.len(),
            trim_end(cs@.subrange(from as int, end as int)) == trim_end(
                cs@.subrange(from as int, to as int),
            ),
        decreases end,
    {
        proof {
            let cur = cs@.subrange(from as int, end as int);
            assert(cur.drop_last() =~= cs@.subrange(from as int, end - 1));
            assert(cur.last() == cs@[end - 1]);
        }
        end -= 1;
    }
    proof {
        let cur = cs@.subrange(from as int, end as int);
        if end > from {
            assert(cur.last() == cs@[end - 1]);
        }
    }
    end
}

/// Where the white space at the start of `cs[from..to]` ends.
pub fn trimmed_start(cs: &Vec<char>, from: usize, to: usize) -> (r: usize)
    requires
        from <= to <= cs@.len(),
    ensures
        from <= r <= to,
        cs@.subrange(r as int, to as int) == trim_start(cs@.subrange(from as int, to as int)),
{
    let mut start: usize = from;
    while start < to && is_whitespace(cs[start])
        invariant
            from <= start <= to <= cs@.len(),
            trim_start(cs@.subrange(start as int, to as int)) == trim_start(
                cs@.subrange(from as int, to as int),
            ),
        decreases to - start,
    {
        proof {
            let cur = cs@.subrange(start as int, to as int);
            assert(cur.drop_first() =~= cs@.subrange(start + 1, to as int));
        }
        start += 1;
    }
    start
}

/// `str::trim`.
pub fn trimmed(s: &str) -> (r: String)
    ensures
        r@ == trim(s@),
{
    let cs = chars_of(s);
    assert(cs@.subrange(0, cs@.len() as int) =~= s@);
    let a = trimmed_start(&cs, 0, cs.len());
    let b = trimmed_end(&cs, a, cs.len());
    string_of(&cs, a, b)
}

/// `str::trim_start`.
pub fn without_leading_space(s: &str) -> (r: String)
    ensures
        r@ == trim_start(s@),
{
    let cs = chars_of(s);
    assert(cs@.subrange(0, cs@.len() as int) =~= s@);
    let a = trimmed_start(&cs, 0, cs.len());
    string_of(&cs, a, cs.len())
}

/// `str::trim_end`.
pub fn without_trailing_space(s: &str) -> (r: String)
    ensures
        r@ == trim_end(s@),
{
    let cs = chars_of(s);
    assert(cs@.subrange(0, cs@.len() as int) =~= s@);
    let b = trimmed_end(&cs, 0, cs.len());
    string_of(&cs, 0, b)
}

// ---- splitting and joining -------------------------------------------------

/// The pieces of `s` between the occurrences of `sep`.
pub open spec fn split(s: Seq<char>, sep: char) -> Seq<Seq<char>>
    decreases s.len(),
{
    if s.len() == 0 {
        seq![Seq::empty()]
    } else {
        let before = split(s.drop_last(), sep);
        if s.last() == sep {
            before.push(Seq::empty())
        } else {
            before.drop_last().push(before.last().push(s.last()))
        }
    }
}

pub broadcast proof fn lemma_split_nonempty(s: Seq<char>, sep: char)
    ensures
        (#[trigger] split(s, sep)).len() >= 1,
    decreases s.len(),
{
    if s.len() > 0 {
        lemma_split_nonempty(s.drop_last(), sep);
    }
}

/// `str::split` on one character.
pub fn split_at_char(s: &str, sep: char) -> (r: Vec<String>)
    ensures
        strs(r@) == split(s@, sep),
        r@.len() >= 1,
{
    broadcast use lemma_split_nonempty;

    let cs = chars_of(s);
    let mut out: Vec<String> = Vec::new();
    let mut cur = String::new();
    let mut i: usize = 0;
    assert(cs@.take(0) =~= Seq::<char>::empty());
    assert(strs(out@).push(cur@) =~= split(cs@.take(0), sep));
    while i < cs.len()
        invariant
            i <= cs@.len(),
            strs(out@).push(cur@) == split(cs@.take(i as int), sep),
        decreases cs@.len() - i,
    {
        proof {
            assert(cs@.take(i + 1).drop_last() =~= cs@.take(i as int));
            assert(strs(out@).push(cur@).last() == cur@);
            assert(strs(out@).push(cur@).drop_last() =~= strs(out@));
        }
        if cs[i] == sep {
            proof {
                lemma_strs_push(out@, cur);
            }
            out.push(cur);
            cur = String::new();
            assert(cur@ =~= Seq::<char>::empty());
        } else {
            cur.push(cs[i]);
        }
        i += 1;
    }
    assert(cs@.take(i as int) =~= s@);
    proof {
        lemma_strs_push(out@, cur);
    }
    out.push(cur);
    out
}

/// `parts` with `sep` between them.
pub open spec fn join(parts: Seq<Seq<char>>, sep: Seq<char>) -> Seq<char>
    decreases parts.len(),
{
    if parts.len() == 0 {
        Seq::empty()
    } else if parts.len() == 1 {
        parts[0]
    } else {
        join(parts.drop_last(), sep) + sep + parts.last()
    }
}

/// `[String]::join`.
pub fn joined(parts: &Vec<String>, sep: &str) -> (r: String)
    ensures
        r@ == join(strs(parts@), sep@),
{
    let mut out = String::new();
    let mut i: usize = 0;
    assert(out@ =~= Seq::<char>::empty());
    while i < parts.len()
        invariant
            i <= parts@.len(),
            out@ == join(strs(parts@).take(i as int), sep@),
        decreases parts@.len() - i,
    {
        proof {
            let next = strs(parts@).take(i + 1);
            assert(next.drop_last() =~= strs(parts@).take(i as int));
            assert(next.last() == parts@[i as int]@);
        }
        if i > 0 {
            append(&mut out, sep);
        }
        append(&mut out, parts[i].as_str());
        i += 1;
        assert(out@ =~= join(strs(parts@).take(i as int), sep@));
    }
    assert(strs(parts@).take(i as int) =~= strs(parts@));
    out
}

/// Without the carriage return before a line feed.
pub open spec fn chop_cr(line: Seq<char>) -> Seq<char> {
    if line.len() > 0 && line.last() == '\r' {
        line.drop_last()
    } else {
        line
    }
}

/// The lines of `s`: every piece that a line feed ends, without a carriage
/// return before the line feed, and the unterminated rest unless it is empty.
pub open spec fn lines(s: Seq<char>) -> Seq<Seq<char>> {
    let parts = split(s, '\n');
    let ended = parts.drop_last().map_values(|l: Seq<char>| chop_cr(l));
    if parts.last().len() == 0 {
        ended
    } else {
        ended.push(parts.last())
    }
}

/// `str::lines`.
pub fn lines_of(s: &str) -> (r: Vec<String>)
    ensures
        strs(r@) == lines(s@),
{
    let parts = split_at_char(s, '\n');
    let mut out: Vec<String> = Vec::new();
    let n: usize = parts.len() - 1;
    let mut i: usize = 0;
    let ghost ended = split(s@, '\n').drop_last().map_values(|l: Seq<char>| chop_cr(l));
    while i < n
        invariant
            i <= n,
            n + 1 == parts@.len(),
            strs(parts@) == split(s@, '\n'),
            ended == split(s@, '\n').drop_last().map_values(|l: Seq<char>| chop_cr(l)),
            strs(out@) == ended.take(i as int),
        decreases n - i,
    {
        let cs = chars_of(parts[i].as_str());
        let mut to: usize = cs.len();
        if to > 0 && cs[to - 1] == '\r' {
            to -= 1;
        }
        let line = string_of(&cs, 0, to);
        proof {
            assert(strs(parts@)[i as int] == parts@[i as int]@);
            assert(line@ =~= chop_cr(cs@));
            assert(ended[i as int] == line@);
            assert(ended.take(i + 1) =~= ended.take(i as int).push(line@));
            lemma_strs_push(out@, line);
        }
        out.push(line);
        i += 1;
    }
    assert(ended.take(i as int) =~= ended);
    assert(strs(parts@)[n as int] == parts@[n as int]@);
    if !parts[n].as_str().is_empty() {
        let last = copy(parts[n].as_str());
        proof {
            lemma_strs_push(out@, last);
        }
        out.push(last);
    }
    out
}

// ---- prefixes and searches -------------------------------------------------

/// Whether `p` starts `s`.
pub open spec fn starts_with(s: Seq<char>, p: Seq<char>) -> bool {
    p.len() <= s.len() && s.take(p.len() as int) == p
}

/// Whether `p` ends `s`.
pub open spec fn ends_with(s: Seq<char>, p: Seq<char>) -> bool {
    p.len() <= s.len() && s.skip(s.len() - p.len()) == p
}

/// `str::strip_prefix`.
pub fn strip_prefix(s: &str, p: &str) -> (r: Option<String>)
    ensures
        opt_str(r) == if starts_with(s@, p@) {
            Some(s@.skip(p@.len() as int))
        } else {
            None
        },
{
    let cs = chars_of(s);
    let ps = chars_of(p);
    if ps.len() > cs.len() {
        return None;
    }
    let mut i: usize = 0;
    while i < ps.len()
        invariant
            i <= ps@.len() <= cs@.len(),
            cs@ == s@,
            ps@ == p@,
            cs@.take(i as int) == ps@.take(i as int),
        decreases ps@.len() - i,
    {
        if cs[i] != ps[i] {
            assert(cs@.take(ps@.len() as int)[i as int] == cs@[i as int]);
            return None;
        }
        proof {
            assert(cs@.take(i + 1) =~= cs@.take(i as int).push(cs@[i as int]));
            assert(ps@.take(i + 1) =~= ps@.take(i as int).push(ps@[i as int]));
        }
        i += 1;
    }
    assert(ps@.take(i as int) =~= ps@);
    let rest = string_of(&cs, i, cs.len());
    assert(rest@ =~= s@.skip(p@.len() as int));
    Some(rest)
}

/// `str::starts_with`.
pub fn has_prefix(s: &str, p: &str) -> (r: bool)
    ensures
        r == starts_with(s@, p@),
{
    strip_prefix(s, p).is_some()
}

/// `str::ends_with`.
pub fn has_suffix(s: &str, p: &str) -> (r: bool)
    ensures
        r == ends_with(s@, p@),
{
    let cs = chars_of(s);
    let ps = chars_of(p);
    if ps.len() > cs.len() {
        return false;
    }
    let at = cs.len() - ps.len();
    let tail = string_of(&cs, at, cs.len());
    assert(tail@ =~= s@.skip(s@.len() - p@.len()));
    same(tail.as_str(), p)
}

/// Position of the first `c` in `s` at or after `from`; the length where there is none.
pub open spec fn find_from(s: Seq<char>, c: char, from: int) -> int
    decreases s.len() - from,
{
    if from < 0 || from >= s.len() {
        s.len() as int
    } else if s[from] == c {
        from
    } else {
        find_from(s, c, from + 1)
    }
}

pub fn find_char(cs: &Vec<char>, c: char, from: usize) -> (r: usize)
    requires
        from <= cs@.len(),
    ensures
        r == find_from(cs@, c, from as int),
        from <= r <= cs@.len(),
        r < cs@.len() ==> cs@[r as int] == c,
        forall|k: int| from <= k < r ==> cs@[k] != c,
{
    let mut i: usize = from;
    while i < cs.len() && cs[i] != c
        invariant
            from <= i <= cs@.len(),
            find_from(cs@, c, i as int) == find_from(cs@, c, from as int),
            forall|k: int| from <= k < i ==> cs@[k] != c,
        decreases cs@.len() - i,
    {
        i += 1;
    }
    i
}

/// Whether `c` occurs in `s`.
pub fn has_char(s: &str, c: char) -> (r: bool)
    ensures
        r == s@.contains(c),
{
    let cs = chars_of(s);
    let at = find_char(&cs, c, 0);
    if at < cs.len() {
        assert(s@[at as int] == c);
        true
    } else {
        false
    }
}

/// Whether `s` is one of `v`.
pub fn has_string(v: &Vec<String>, s: &str) -> (r: bool)
    ensures
        r == strs(v@).contains(s@),
{
    let mut i: usize = 0;
    while i < v.len()
        invariant
            i <= v@.len(),
            forall|k: int| 0 <= k < i ==> strs(v@)[k] != s@,
        decreases v@.len() - i,
    {
        if same(v[i].as_str(), s) {
            assert(strs(v@)[i as int] == s@);
            return true;
        }
        i += 1;
    }
    false
}

/// Whether `p` stands in `s` at position `i`.
pub open spec fn occurs_at(s: Seq<char>, p: Seq<char>, i: int) -> bool {
    0 <= i && i + p.len() <= s.len() && s.subrange(i, i + p.len()) == p
}

/// Whether `p` occurs in `s`.
pub open spec fn contains_str(s: Seq<char>, p: Seq<char>) -> bool {
    exists|i: int| occurs_at(s, p, i)
}

/// `str::contains` with a string.
pub fn has_substring(s: &str, p: &str) -> (r: bool)
    ensures
        r == contains_str(s@, p@),
{
    let cs = chars_of(s);
    let ps = chars_of(p);
    if ps.len() > cs.len() {
        return false;
    }
    let top: usize = cs.len() - ps.len();
    let mut i: usize = 0;
    loop
        invariant
            cs@ == s@,
            ps@ == p@,
            i <= top,
            top + ps@.len() == cs@.len(),
            forall|k: int| 0 <= k < i ==> !#[trigger] occurs_at(s@, p@, k),
        decreases top - i,
    {
        let here = string_of(&cs, i, cs.len() - (top - i));
        if same(here.as_str(), p) {
            assert(occurs_at(s@, p@, i as int));
            return true;
        }
        assert(!occurs_at(s@, p@, i as int));
        if i == top {
            return false;
        }
        i += 1;
    }
}

/// What stands before and behind the first `c`.
pub open spec fn split_first(s: Seq<char>, c: char) -> Option<(Seq<char>, Seq<char>)> {
    let at = find_from(s, c, 0);
    if at < s.len() {
        Some((s.take(at), s.skip(at + 1)))
    } else {
        None
    }
}

/// `str::split_once`.
pub fn split_once(s: &str, c: char) -> (r: Option<(String, String)>)
    ensures
        (match r {
            Some(p) => split_first(s@, c) == Some((p.0@, p.1@)),
            None => split_first(s@, c) is None,
        }),
{
    let cs = chars_of(s);
    let at = find_char(&cs, c, 0);
    if at < cs.len() {
        let a = string_of(&cs, 0, at);
        let b = string_of(&cs, at + 1, cs.len());
        assert(a@ =~= s@.take(at as int));
        assert(b@ =~= s@.skip(at + 1));
        Some((a, b))
    } else {
        None
    }
}

/// The first line of a message, without space around it; the whole message
/// where it has no line.
pub open spec fn first_line_of(s: Seq<char>) -> Seq<char> {
    let all = lines(s);
    trim(
        if all.len() > 0 {
            all[0]
        } else {
            s
        },
    )
}

/// First line of an error (git errors embed what git printed; the top line is
/// the news).
pub fn first_line(s: &str) -> (r: String)
    ensures
        r@ == first_line_of(s@),
{
    let all = lines_of(s);
    if all.len() > 0 {
        assert(strs(all@)[0] == all@[0]@);
        trimmed(all[0].as_str())
    } else {
        trimmed(s)
    }
}

// ---- numbers ---------------------------------------------------------------

/// The character of one decimal digit.
pub open spec fn digit(n: nat) -> char
    recommends
        n < 10,
{
    (48 + n) as char
}

/// `n` in decimal.
pub open spec fn dec(n: nat) -> Seq<char>
    decreases n,
{
    if n < 10 {
        seq![digit(n)]
    } else {
        dec(n / 10).push(digit(n % 10))
    }
}

pub fn digit_char(n: u64) -> (c: char)
    requires
        n < 10,
    ensures
        c == digit(n as nat),
{
    if n == 0 {
        '0'
    } else if n == 1 {
        '1'
    } else if n == 2 {
        '2'
    } else if n == 3 {
        '3'
    } else if n == 4 {
        '4'
    } else if n == 5 {
        '5'
    } else if n == 6 {
        '6'
    } else if n == 7 {
        '7'
    } else if n == 8 {
        '8'
    } else {
        '9'
    }
}

/// `n` in decimal.
pub fn decimal(n: u64) -> (r: String)
    ensures
        r@ == dec(n as nat),
        r@.len() >= 1,
    decreases n,
{
    if n < 10 {
        let mut s = String::new();
        s.push(digit_char(n));
        assert(s@ =~= dec(n as nat));
        s
    } else {
        let mut s = decimal(n / 10);
        s.push(digit_char(n % 10));
        s
    }
}

/// Append `n` in decimal.
pub fn append_dec(s: &mut String, n: u64)
    ensures
        final(s)@ == old(s)@ + dec(n as nat),
{
    let d = decimal(n);
    append(s, d.as_str());
}

pub open spec fn is_digit(c: char) -> bool {
    '0' <= c <= '9'
}

/// The value of a string of decimal digits.
pub open spec fn digits_value(s: Seq<char>) -> nat
    decreases s.len(),
{
    if s.len() == 0 {
        0
    } else {
        digits_value(s.drop_last()) * 10 + (s.last() as u32 - 48) as nat
    }
}

pub open spec fn all_digits(s: Seq<char>) -> bool {
    forall|i: int| 0 <= i < s.len() ==> is_digit(#[trigger] s[i])
}

/// Without a leading `+`.
pub open spec fn unsigned_body(s: Seq<char>) -> Seq<char> {
    if s.len() > 0 && s[0] == '+' {
        s.drop_first()
    } else {
        s
    }
}

/// What `str::parse` makes of a string for an unsigned integer of at most
/// `max`: an optional `+` and at least one decimal digit, nothing else.
pub open spec fn parse_unsigned(s: Seq<char>, max: nat) -> Option<nat> {
    let body = unsigned_body(s);
    if body.len() > 0 && all_digits(body) && digits_value(body) <= max {
        Some(digits_value(body))
    } else {
        None
    }
}

proof fn lemma_digits_value_mono(s: Seq<char>, i: int)
    requires
        0 <= i <= s.len(),
        forall|k: int| 0 <= k < s.len() ==> is_digit(#[trigger] s[k]),
    ensures
        digits_value(s.take(i)) <= digits_value(s),
    decreases s.len() - i,
{
    if i == s.len() {
        assert(s.take(i) =~= s);
    } else {
        assert(s.take(i + 1).drop_last() =~= s.take(i));
        lemma_digits_value_mono(s, i + 1);
    }
}

/// `str::parse` for unsigned integers of at most `max`.
pub fn parse_u64(s: &str, max: u64) -> (r: Option<u64>)
    ensures
        r is Some <==> parse_unsigned(s@, max as nat) is Some,
        r is Some ==> Some(r->0 as nat) == parse_unsigned(s@, max as nat),
{
    let cs = chars_of(s);
    let start: usize = if cs.len() > 0 && cs[0] == '+' {
        1
    } else {
        0
    };
    let ghost body = unsigned_body(s@);
    assert(body =~= cs@.subrange(start as int, cs@.len() as int));
    if start == cs.len() {
        return None;
    }
    let mut value: u64 = 0;
    let mut i: usize = start;
    assert(body.take(0) =~= Seq::<char>::empty());
    while i < cs.len()
        invariant
            cs@ == s@,
            body == unsigned_body(s@),
            body == cs@.subrange(start as int, cs@.len() as int),
            start <= i <= cs@.len(),
            start < cs@.len(),
            value == digits_value(body.take(i - start)),
            value <= max,
            forall|k: int| 0 <= k < i - start ==> is_digit(#[trigger] body[k]),
        decreases cs@.len() - i,
    {
        let c = cs[i];
        assert(body[i - start] == c);
        if c < '0' || c > '9' {
            return None;
        }
        let d: u64 = (c as u32 - 48) as u64;
        proof {
            assert(body.take(i - start + 1).drop_last() =~= body.take(i - start));
            assert(body.take(i - start + 1).last() == c);
            if all_digits(body) {
                lemma_digits_value_mono(body, i - start + 1);
            }
        }
        if value > (u64::MAX - d) / 10 || value * 10 + d > max {
            return None;
        }
        value = value * 10 + d;
        i += 1;
    }
    assert(body.take(i - start) =~= body);
    Some(value)
}

// ---- what these operations are for ------------------------------------------

/// A text without the separator is one piece.
pub proof fn lemma_split_whole(s: Seq<char>, sep: char)
    requires
        !s.contains(sep),
    ensures
        split(s, sep) == seq![s],
    decreases s.len(),
{
    if s.len() > 0 {
        let t = s.drop_last();
        assert(s[s.len() - 1] == s.last());
        assert forall|k: int| 0 <= k < t.len() implies t[k] != sep by {
            assert(s[k] == t[k]);
        }
        lemma_split_whole(t, sep);
        assert(seq![t].drop_last() =~= Seq::<Seq<char>>::empty());
        assert(t.push(s.last()) =~= s);
        assert(split(s, sep) =~= seq![s]);
    } else {
        assert(s =~= Seq::<char>::empty());
    }
}

/// The pieces on both sides of a separator are those of the two texts.
pub proof fn lemma_split_concat(s: Seq<char>, t: Seq<char>, sep: char)
    ensures
        split(s.push(sep) + t, sep) == split(s, sep) + split(t, sep),
    decreases t.len(),
{
    broadcast use lemma_split_nonempty;

    let a = split(s, sep);
    let whole = s.push(sep) + t;
    if t.len() == 0 {
        assert(whole =~= s.push(sep));
        assert(whole.drop_last() =~= s);
        assert(split(whole, sep) =~= a + split(t, sep));
    } else {
        let u = t.drop_last();
        assert(whole.drop_last() =~= s.push(sep) + u);
        assert(whole.last() == t.last());
        lemma_split_concat(s, u, sep);
        let b = split(u, sep);
        if t.last() == sep {
            assert((a + b).push(Seq::empty()) =~= a + b.push(Seq::empty()));
        } else {
            assert((a + b).last() == b.last());
            assert((a + b).drop_last() =~= a + b.drop_last());
            assert(split(whole, sep) =~= a + split(t, sep));
        }
    }
}

/// Each part with the separator behind it.
pub open spec fn terminated(parts: Seq<Seq<char>>, sep: char) -> Seq<char>
    decreases parts.len(),
{
    if parts.len() == 0 {
        Seq::empty()
    } else {
        parts[0].push(sep) + terminated(parts.drop_first(), sep)
    }
}

pub open spec fn none_holds(parts: Seq<Seq<char>>, sep: char) -> bool {
    forall|i: int| 0 <= i < parts.len() ==> !(#[trigger] parts[i]).contains(sep)
}

/// Texts that each end in the separator are read back one by one.
pub proof fn law_terminated_texts_are_read_back(parts: Seq<Seq<char>>, sep: char)
    requires
        none_holds(parts, sep),
    ensures
        split(terminated(parts, sep), sep) == parts.push(Seq::empty()),
    decreases parts.len(),
{
    if parts.len() == 0 {
        assert(split(terminated(parts, sep), sep) =~= parts.push(Seq::empty()));
    } else {
        let rest = parts.drop_first();
        assert forall|i: int| 0 <= i < rest.len() implies !(#[trigger] rest[i]).contains(sep) by {
            assert(rest[i] == parts[i + 1]);
        }
        law_terminated_texts_are_read_back(rest, sep);
        lemma_split_concat(parts[0], terminated(rest, sep), sep);
        lemma_split_whole(parts[0], sep);
        assert(seq![parts[0]] + rest.push(Seq::empty()) =~= parts.push(Seq::empty()));
    }
}

pub proof fn lemma_terminated_concat(a: Seq<Seq<char>>, b: Seq<Seq<char>>, sep: char)
    ensures
        terminated(a + b, sep) == terminated(a, sep) + terminated(b, sep),
    decreases a.len(),
{
    if a.len() == 0 {
        assert(a + b =~= b);
        assert(terminated(a, sep) + terminated(b, sep) =~= terminated(b, sep));
    } else {
        assert((a + b).drop_first() =~= a.drop_first() + b);
        lemma_terminated_concat(a.drop_first(), b, sep);
        assert(terminated(a + b, sep) =~= terminated(a, sep) + terminated(b, sep));
    }
}

proof fn lemma_join_front(parts: Seq<Seq<char>>, sep: Seq<char>)
    requires
        parts.len() >= 2,
    ensures
        join(parts, sep) == parts[0] + sep + join(parts.drop_first(), sep),
    decreases parts.len(),
{
    let rest = parts.drop_first();
    if parts.len() == 2 {
        assert(join(parts.drop_last(), sep) == parts[0]);
        assert(rest.last() == parts.last());
    } else {
        lemma_join_front(parts.drop_last(), sep);
        assert(parts.drop_last().drop_first() =~= rest.drop_last());
        assert(rest.last() == parts.last());
        assert(join(parts, sep) =~= parts[0] + sep + join(rest, sep));
    }
}

/// Texts joined by a separator that none of them holds are read back.
pub proof fn law_splitting_undoes_joining(parts: Seq<Seq<char>>, sep: char)
    requires
        parts.len() >= 1,
        none_holds(parts, sep),
    ensures
        split(join(parts, seq![sep]), sep) == parts,
    decreases parts.len(),
{
    if parts.len() == 1 {
        lemma_split_whole(parts[0], sep);
        assert(split(join(parts, seq![sep]), sep) =~= parts);
    } else {
        let rest = parts.drop_first();
        assert forall|i: int| 0 <= i < rest.len() implies !(#[trigger] rest[i]).contains(sep) by {
            assert(rest[i] == parts[i + 1]);
        }
        lemma_join_front(parts, seq![sep]);
        law_splitting_undoes_joining(rest, sep);
        let tail = join(rest, seq![sep]);
        assert(parts[0] + seq![sep] + tail =~= parts[0].push(sep) + tail);
        lemma_split_concat(parts[0], tail, sep);
        lemma_split_whole(parts[0], sep);
        assert(seq![parts[0]] + rest =~= parts);
    }
}

proof fn lemma_join_push(parts: Seq<Seq<char>>, last: Seq<char>, sep: Seq<char>)
    requires
        parts.len() >= 1,
    ensures
        join(parts.push(last), sep) == join(parts, sep) + sep + last,
{
    assert(parts.push(last).drop_last() =~= parts);
}

/// Splitting loses nothing: the pieces hold no separator, and joined by it they
/// are the text again.
pub proof fn law_joining_undoes_splitting(s: Seq<char>, sep: char)
    ensures
        split(s, sep).len() >= 1,
        join(split(s, sep), seq![sep]) == s,
        none_holds(split(s, sep), sep),
    decreases s.len(),
{
    if s.len() == 0 {
        assert(join(split(s, sep), seq![sep]) =~= s);
    } else {
        let t = s.drop_last();
        let before = split(t, sep);
        let pieces = split(s, sep);
        law_joining_undoes_splitting(t, sep);
        if s.last() == sep {
            lemma_join_push(before, Seq::empty(), seq![sep]);
            assert(t + seq![sep] + Seq::<char>::empty() =~= s);
        } else {
            let head = before.drop_last();
            let grown = before.last().push(s.last());
            assert(before =~= head.push(before.last()));
            if head.len() > 0 {
                lemma_join_push(head, before.last(), seq![sep]);
                lemma_join_push(head, grown, seq![sep]);
                assert(join(pieces, seq![sep]) =~= t.push(s.last()));
            } else {
                assert(pieces =~= seq![grown]);
                assert(before =~= seq![before.last()]);
            }
            assert(t.push(s.last()) =~= s);
        }
        assert forall|i: int| 0 <= i < pieces.len() implies !(#[trigger] pieces[i]).contains(sep) by {
            if i < before.len() - 1 {
                assert(pieces[i] == before[i]);
            } else if s.last() == sep {
                if i < before.len() {
                    assert(pieces[i] == before[i]);
                }
            } else {
                let last = before.last();
                assert(last == before[before.len() - 1]);
                let grown = last.push(s.last());
                assert(pieces[i] == grown);
                if grown.contains(sep) {
                    let k = choose|k: int| 0 <= k < grown.len() && grown[k] == sep;
                    assert(last[k] == sep);
                }
            }
        }
    }
}

/// Lines that a line feed ends are read back one by one, and an unterminated
/// last one too.
pub proof fn law_lines_are_read_back(ls: Seq<Seq<char>>, rest: Seq<char>)
    requires
        none_holds(ls, '\n'),
        !rest.contains('\n'),
        forall|i: int| 0 <= i < ls.len() && ls[i].len() > 0 ==> (#[trigger] ls[i]).last() != '\r',
    ensures
        lines(terminated(ls, '\n') + rest) == if rest.len() > 0 {
            ls.push(rest)
        } else {
            ls
        },
    decreases ls.len(),
{
    let text = terminated(ls, '\n') + rest;
    lemma_split_terminated_then(ls, rest, '\n');
    let parts = split(text, '\n');
    assert(parts.drop_last() =~= ls);
    let ended = ls.map_values(|l: Seq<char>| chop_cr(l));
    assert(ended =~= ls);
}

pub proof fn lemma_split_terminated_then(parts: Seq<Seq<char>>, rest: Seq<char>, sep: char)
    requires
        none_holds(parts, sep),
        !rest.contains(sep),
    ensures
        split(terminated(parts, sep) + rest, sep) == parts.push(rest),
    decreases parts.len(),
{
    if parts.len() == 0 {
        lemma_split_whole(rest, sep);
        assert(terminated(parts, sep) + rest =~= rest);
        assert(seq![rest] =~= parts.push(rest));
    } else {
        let more = parts.drop_first();
        assert forall|i: int| 0 <= i < more.len() implies !(#[trigger] more[i]).contains(sep) by {
            assert(more[i] == parts[i + 1]);
        }
        lemma_split_terminated_then(more, rest, sep);
        let tail = terminated(more, sep) + rest;
        lemma_split_concat(parts[0], tail, sep);
        lemma_split_whole(parts[0], sep);
        assert(terminated(parts, sep) + rest =~= parts[0].push(sep) + tail);
        assert(seq![parts[0]] + more.push(rest) =~= parts.push(rest));
    }
}

/// Blanks, tabs and line ends are white space, and no visible ASCII character is.
pub proof fn law_what_is_white_space(c: char)
    ensures
        c == ' ' || c == '\t' || c == '\n' || c == '\r' ==> is_space(c),
        '!' <= c <= '~' ==> !is_space(c),
{
}

pub open spec fn all_space(s: Seq<char>) -> bool {
    forall|i: int| 0 <= i < s.len() ==> is_space(#[trigger] s[i])
}

proof fn lemma_trim_start_parts(s: Seq<char>)
    ensures
        ({
            let n = s.len() - trim_start(s).len();
            &&& 0 <= n <= s.len()
            &&& trim_start(s) == s.skip(n)
            &&& all_space(s.take(n))
            &&& trim_start(s).len() > 0 ==> !is_space(trim_start(s)[0])
        }),
    decreases s.len(),
{
    if s.len() > 0 && is_space(s[0]) {
        let t = s.drop_first();
        lemma_trim_start_parts(t);
        let n = s.len() - trim_start(s).len();
        assert(s.skip(n) =~= t.skip(n - 1));
        assert forall|i: int| 0 <= i < n implies is_space(#[trigger] s.take(n)[i]) by {
            if i > 0 {
                assert(s.take(n)[i] == t.take(n - 1)[i - 1]);
            }
        }
    } else {
        assert(s.skip(0) =~= s);
    }
}

pub proof fn lemma_trim_end_parts(s: Seq<char>)
    ensures
        ({
            let n = trim_end(s).len() as int;
            &&& n <= s.len()
            &&& trim_end(s) == s.take(n)
            &&& all_space(s.skip(n))
            &&& n > 0 ==> !is_space(trim_end(s).last())
        }),
    decreases s.len(),
{
    if s.len() > 0 && is_space(s.last()) {
        let t = s.drop_last();
        lemma_trim_end_parts(t);
        let n = trim_end(s).len() as int;
        assert(s.take(n) =~= t.take(n));
        assert forall|i: int| 0 <= i < s.len() - n implies is_space(#[trigger] s.skip(n)[i]) by {
            if n + i < t.len() {
                assert(s.skip(n)[i] == t.skip(n)[i]);
            }
        }
    } else {
        assert(s.take(s.len() as int) =~= s);
    }
}

/// Trimming takes the white space at both ends and nothing else.
pub proof fn law_trimming_takes_only_white_space(s: Seq<char>)
    ensures
        exists|a: int, b: int|
            0 <= a <= b <= s.len() && #[trigger] s.subrange(a, b) == trim(s) && all_space(s.take(a))
                && all_space(s.skip(b)),
        trim(s).len() > 0 ==> !is_space(trim(s)[0]) && !is_space(trim(s).last()),
{
    let t = trim_start(s);
    lemma_trim_start_parts(s);
    lemma_trim_end_parts(t);
    let a = s.len() - t.len();
    let n = trim(s).len() as int;
    let b = a + n;
    assert(s.subrange(a, b) =~= t.take(n));
    assert forall|i: int| 0 <= i < s.len() - b implies is_space(#[trigger] s.skip(b)[i]) by {
        assert(s.skip(b)[i] == t.skip(n)[i]);
    }
    if n > 0 {
        assert(trim(s)[0] == t[0]);
    }
}

/// A number is written in decimal: the digit of its remainder by ten behind the
/// digits of the rest, without leading zeros.
pub proof fn law_numbers_are_written_in_decimal(n: nat, d: nat)
    requires
        d < 10,
    ensures
        dec(d).len() == 1,
        dec(d)[0] as int == '0' as int + d,
        n > 0 ==> dec(n * 10 + d) == dec(n) + dec(d),
{
    if n > 0 {
        assert((n * 10 + d) / 10 == n);
        assert((n * 10 + d) % 10 == d);
        assert(dec(n).push(digit(d)) =~= dec(n) + seq![digit(d)]);
    }
}

proof fn lemma_dec_digits(n: nat)
    ensures
        dec(n).len() >= 1,
        all_digits(dec(n)),
        digits_value(dec(n)) == n,
    decreases n,
{
    if n < 10 {
        let s = dec(n);
        assert(s.drop_last() =~= Seq::<char>::empty());
        assert(digits_value(s) == digits_value(s.drop_last()) * 10 + (s.last() as u32 - 48) as nat);
    } else {
        lemma_dec_digits(n / 10);
        let s = dec(n);
        let d = digit(n % 10);
        assert(s.drop_last() =~= dec(n / 10));
        assert(is_digit(d));
        assert forall|i: int| 0 <= i < s.len() implies is_digit(#[trigger] s[i]) by {
            if i < s.len() - 1 {
                assert(s[i] == dec(n / 10)[i]);
            }
        }
    }
}

/// A number that was written is read back, unless it is larger than allowed.
pub proof fn law_written_numbers_are_read_back(n: nat, max: nat)
    ensures
        parse_unsigned(dec(n), max) == if n <= max {
            Some(n)
        } else {
            None
        },
{
    lemma_dec_digits(n);
    assert(is_digit(dec(n)[0]));
    assert(dec(n)[0] != '+');
}

/// Decimal numbers hold nothing but digits.
pub proof fn lemma_dec_is_plain(n: nat)
    ensures
        dec(n).len() >= 1,
        all_digits(dec(n)),
{
    lemma_dec_digits(n);
}

} // verus!
