//! What the editor needs to be told: which line a diff starts at.
use crate::git::{lossy, lossy_text};
use crate::text::{
    chars_of, dec, find_char, find_from, is_digit, law_written_numbers_are_read_back,
    lemma_dec_is_plain, parse_u64, parse_unsigned, string_of,
};
use vstd::prelude::*;

verus! {

broadcast use vstd::string::group_string_axioms;

// ---- escape sequences --------------------------------------------------------

/// Whether a byte ends a control sequence.
pub open spec fn ends_sequence(b: u8) -> bool {
    0x40 <= b <= 0x7e
}

/// The position behind the control sequence that `raw[i..]` is the inside of.
pub open spec fn sequence_end(raw: Seq<u8>, i: int) -> int
    decreases raw.len() - i,
{
    if i < 0 || i >= raw.len() {
        raw.len() as int
    } else if ends_sequence(raw[i]) {
        i + 1
    } else {
        sequence_end(raw, i + 1)
    }
}

proof fn lemma_sequence_end(raw: Seq<u8>, i: int)
    requires
        0 <= i <= raw.len(),
    ensures
        i <= sequence_end(raw, i) <= raw.len(),
    decreases raw.len() - i,
{
    if i < raw.len() && !ends_sequence(raw[i]) {
        lemma_sequence_end(raw, i + 1);
    }
}

/// The position behind the escape sequence that starts at `i`: `ESC [` up to
/// its final byte, or `ESC` and one byte.
pub open spec fn escape_end(raw: Seq<u8>, i: int) -> int {
    if i + 1 < raw.len() && raw[i + 1] == 0x5b {
        sequence_end(raw, i + 2)
    } else if i + 2 <= raw.len() {
        i + 2
    } else {
        raw.len() as int
    }
}

pub proof fn lemma_escape_end(raw: Seq<u8>, i: int)
    requires
        0 <= i < raw.len(),
    ensures
        i < escape_end(raw, i) <= raw.len(),
{
    if i + 1 < raw.len() && raw[i + 1] == 0x5b {
        lemma_sequence_end(raw, i + 2);
    }
}

/// The bytes from `i` on without escape sequences.
pub open spec fn stripped(raw: Seq<u8>, i: int) -> Seq<u8>
    decreases raw.len() - i,
{
    if i < 0 || i >= raw.len() {
        Seq::empty()
    } else if raw[i] == 0x1b {
        proof {
            lemma_escape_end(raw, i);
        }
        stripped(raw, escape_end(raw, i))
    } else {
        seq![raw[i]] + stripped(raw, i + 1)
    }
}

/// Remove ANSI escape sequences with a plain byte scan.
pub fn strip_ansi(raw: &[u8]) -> (r: Vec<u8>)
    ensures
        r@ == stripped(raw@, 0),
{
    let mut out: Vec<u8> = Vec::new();
    let mut i: usize = 0;
    assert(out@ + stripped(raw@, 0) =~= stripped(raw@, 0));
    while i < raw.len()
        invariant
            i <= raw@.len(),
            out@ + stripped(raw@, i as int) == stripped(raw@, 0),
        decreases raw@.len() - i,
    {
        if raw[i] == 0x1b {
            proof {
                lemma_escape_end(raw@, i as int);
            }
            let ghost end = escape_end(raw@, i as int);
            if i + 1 < raw.len() && raw[i + 1] == 0x5b {
                let mut k: usize = i + 2;
                while k < raw.len() && !(raw[k] >= 0x40 && raw[k] <= 0x7e)
                    invariant
                        i + 2 <= k <= raw@.len(),
                        sequence_end(raw@, k as int) == end,
                    decreases raw@.len() - k,
                {
                    k += 1;
                }
                i = if k < raw.len() {
                    k + 1
                } else {
                    k
                };
            } else if raw.len() - i >= 2 {
                i = i + 2;
            } else {
                i = raw.len();
            }
            assert(i == end);
        } else {
            proof {
                assert(out@.push(raw@[i as int]) + stripped(raw@, i + 1) =~= out@ + (seq![
                    raw@[i as int],
                ] + stripped(raw@, i + 1)));
            }
            out.push(raw[i]);
            i += 1;
        }
    }
    assert(out@ + Seq::<u8>::empty() =~= out@);
    out
}

proof fn lemma_no_escape_left(raw: Seq<u8>, i: int)
    requires
        0 <= i <= raw.len(),
    ensures
        !stripped(raw, i).contains(0x1b),
    decreases raw.len() - i,
{
    if i < raw.len() {
        if raw[i] == 0x1b {
            lemma_escape_end(raw, i);
            lemma_no_escape_left(raw, escape_end(raw, i));
        } else {
            lemma_no_escape_left(raw, i + 1);
            let rest = stripped(raw, i + 1);
            assert forall|k: int| 0 <= k < stripped(raw, i).len() implies stripped(raw, i)[k]
                != 0x1b by {
                if k > 0 {
                    assert(stripped(raw, i)[k] == rest[k - 1]);
                    assert(rest.contains(rest[k - 1]));
                }
            }
        }
    }
}

proof fn lemma_plain_unchanged(raw: Seq<u8>, i: int)
    requires
        0 <= i <= raw.len(),
        !raw.contains(0x1b),
    ensures
        stripped(raw, i) == raw.skip(i),
    decreases raw.len() - i,
{
    if i < raw.len() {
        assert(raw.contains(raw[i]));
        lemma_plain_unchanged(raw, i + 1);
        assert(raw.skip(i) =~= seq![raw[i]] + raw.skip(i + 1));
    } else {
        assert(raw.skip(i) =~= Seq::<u8>::empty());
    }
}

/// No escape byte is left, and bytes without one stay as they are.
pub proof fn law_stripping_removes_every_escape(raw: Seq<u8>)
    ensures
        !stripped(raw, 0).contains(0x1b),
        !raw.contains(0x1b) ==> stripped(raw, 0) == raw,
        stripped(stripped(raw, 0), 0) == stripped(raw, 0),
{
    lemma_no_escape_left(raw, 0);
    let once = stripped(raw, 0);
    lemma_plain_unchanged(once, 0);
    assert(once.skip(0) =~= once);
    if !raw.contains(0x1b) {
        lemma_plain_unchanged(raw, 0);
        assert(raw.skip(0) =~= raw);
    }
}

// ---- hunk headers ------------------------------------------------------------

/// The end of the line that position `i` stands in.
pub open spec fn line_end(raw: Seq<u8>, i: int) -> int
    decreases raw.len() - i,
{
    if i < 0 || i >= raw.len() || raw[i] == 10 {
        i
    } else {
        line_end(raw, i + 1)
    }
}

pub proof fn lemma_line_end(raw: Seq<u8>, i: int)
    requires
        0 <= i <= raw.len(),
    ensures
        i <= line_end(raw, i) <= raw.len(),
    decreases raw.len() - i,
{
    if i < raw.len() && raw[i] != 10 {
        lemma_line_end(raw, i + 1);
    }
}

/// The digits that `s` goes on with from `i`.
pub open spec fn digits_end(s: Seq<char>, i: int) -> int
    decreases s.len() - i,
{
    if i < 0 || i >= s.len() || !is_digit(s[i]) {
        i
    } else {
        digits_end(s, i + 1)
    }
}

pub proof fn lemma_digits_end(s: Seq<char>, i: int)
    requires
        0 <= i <= s.len(),
    ensures
        i <= digits_end(s, i) <= s.len(),
    decreases s.len() - i,
{
    if i < s.len() && is_digit(s[i]) {
        lemma_digits_end(s, i + 1);
    }
}

/// The new-file line of a hunk header: the number behind its first plus.
pub open spec fn hunk_line(header: Seq<char>) -> Option<nat> {
    let plus = find_from(header, '+', 0);
    if plus >= header.len() {
        None
    } else {
        parse_unsigned(
            header.subrange(plus + 1, digits_end(header, plus + 1)),
            u32::MAX as nat,
        )
    }
}

/// Whether the line from `i` to `e` is a hunk header.
pub open spec fn is_hunk(raw: Seq<u8>, i: int, e: int) -> bool {
    i + 2 <= e && raw[i] == 0x40 && raw[i + 1] == 0x40
}

/// The line of the first hunk header among the lines from `i` on.
pub open spec fn first_hunk(raw: Seq<u8>, i: int) -> Option<nat>
    decreases raw.len() - i,
{
    if i < 0 || i > raw.len() {
        None
    } else {
        let e = line_end(raw, i);
        if is_hunk(raw, i, e) {
            hunk_line(lossy_text(raw.subrange(i, e)))
        } else if e >= raw.len() {
            None
        } else {
            proof {
                lemma_line_end(raw, i);
            }
            first_hunk(raw, e + 1)
        }
    }
}

fn header_line(text: &str) -> (r: Option<u32>)
    ensures
        (match r {
            Some(n) => hunk_line(text@) == Some(n as nat),
            None => hunk_line(text@) is None,
        }),
{
    let cs = chars_of(text);
    let plus = find_char(&cs, '+', 0);
    if plus >= cs.len() {
        return None;
    }
    proof {
        lemma_digits_end(cs@, plus + 1);
    }
    let mut e: usize = plus + 1;
    while e < cs.len() && cs[e] >= '0' && cs[e] <= '9'
        invariant
            plus + 1 <= e <= cs@.len(),
            digits_end(cs@, e as int) == digits_end(cs@, plus + 1),
        decreases cs@.len() - e,
    {
        e += 1;
    }
    let digits = string_of(&cs, plus + 1, e);
    match parse_u64(digits.as_str(), 0xffff_ffff) {
        Some(n) => Some(n as u32),
        None => None,
    }
}

/// First line number (new-file side) of the first hunk in a coloured diff:
/// the `c` of the first `@@ -a[,b] +c[,d] @@`.
pub fn first_new_line(raw: &[u8]) -> (r: Option<u32>)
    ensures
        (match r {
            Some(n) => first_hunk(stripped(raw@, 0), 0) == Some(n as nat),
            None => first_hunk(stripped(raw@, 0), 0) is None,
        }),
{
    let bytes = strip_ansi(raw);
    let mut i: usize = 0;
    loop
        invariant
            i <= bytes@.len(),
            bytes@ == stripped(raw@, 0),
            first_hunk(bytes@, i as int) == first_hunk(bytes@, 0),
        decreases bytes@.len() - i,
    {
        proof {
            lemma_line_end(bytes@, i as int);
        }
        let mut e: usize = i;
        let mut line: Vec<u8> = Vec::new();
        assert(line@ =~= bytes@.subrange(i as int, i as int));
        while e < bytes.len() && bytes[e] != 10
            invariant
                i <= e <= bytes@.len(),
                line_end(bytes@, e as int) == line_end(bytes@, i as int),
                line@ == bytes@.subrange(i as int, e as int),
            decreases bytes@.len() - e,
        {
            assert(bytes@.subrange(i as int, e + 1) =~= bytes@.subrange(i as int, e as int).push(
                bytes@[e as int],
            ));
            line.push(bytes[e]);
            e += 1;
        }
        if e - i >= 2 && bytes[i] == 0x40 && bytes[i + 1] == 0x40 {
            let text = lossy(line.as_slice());
            return header_line(text.as_str());
        }
        if e >= bytes.len() {
            return None;
        }
        i = e + 1;
    }
}

// ---- what is found in a diff -----------------------------------------------------

proof fn lemma_stripped_head(a: Seq<u8>, b: Seq<u8>, i: int)
    requires
        0 <= i <= a.len(),
        !a.contains(0x1b),
    ensures
        stripped(a + b, i) == a.skip(i) + stripped(a + b, a.len() as int),
    decreases a.len() - i,
{
    if i < a.len() {
        assert(a.contains(a[i]));
        assert((a + b)[i] == a[i]);
        lemma_stripped_head(a, b, i + 1);
        assert(a.skip(i) =~= seq![a[i]] + a.skip(i + 1));
        assert(stripped(a + b, i) =~= a.skip(i) + stripped(a + b, a.len() as int));
    } else {
        assert(a.skip(i) + stripped(a + b, i) =~= stripped(a + b, i));
    }
}

proof fn lemma_sequence_skipped(raw: Seq<u8>, i: int, end: int)
    requires
        0 <= i <= end < raw.len(),
        ends_sequence(raw[end]),
        forall|k: int| i <= k < end ==> !ends_sequence(#[trigger] raw[k]),
    ensures
        sequence_end(raw, i) == end + 1,
    decreases end - i,
{
    if i < end {
        lemma_sequence_skipped(raw, i + 1, end);
    }
}

proof fn lemma_stripped_behind(a: Seq<u8>, b: Seq<u8>, i: int)
    requires
        0 <= i <= b.len(),
    ensures
        stripped(a + b, a.len() + i) == stripped(b, i),
    decreases b.len() - i,
{
    let raw = a + b;
    let at = a.len() + i;
    if i < b.len() {
        assert(raw[at] == b[i]);
        if b[i] == 0x1b {
            lemma_escape_end(b, i);
            if i + 1 < b.len() {
                assert(raw[at + 1] == b[i + 1]);
                if b[i + 1] == 0x5b {
                    lemma_sequence_shifted(a, b, i + 2);
                }
            }
            assert(escape_end(raw, at) == a.len() + escape_end(b, i));
            lemma_stripped_behind(a, b, escape_end(b, i));
        } else {
            lemma_stripped_behind(a, b, i + 1);
        }
    }
}

proof fn lemma_sequence_shifted(a: Seq<u8>, b: Seq<u8>, i: int)
    requires
        0 <= i <= b.len(),
    ensures
        sequence_end(a + b, a.len() + i) == a.len() + sequence_end(b, i),
    decreases b.len() - i,
{
    if i < b.len() {
        assert((a + b)[a.len() + i] == b[i]);
        if !ends_sequence(b[i]) {
            lemma_sequence_shifted(a, b, i + 1);
        }
    }
}

/// Stripping takes a control sequence, from the escape to the byte that ends it,
/// and leaves what stands before and behind.
pub proof fn law_stripping_takes_the_sequence_alone(
    before: Seq<u8>,
    inside: Seq<u8>,
    end: u8,
    behind: Seq<u8>,
)
    requires
        !before.contains(0x1b),
        0x40 <= end <= 0x7e,
        forall|k: int|
            0 <= k < inside.len() ==> !(0x40 <= #[trigger] inside[k] <= 0x7e),
    ensures
        stripped(before + (seq![0x1bu8, 0x5bu8] + inside.push(end) + behind), 0) == before
            + stripped(behind, 0),
{
    let escape = seq![0x1bu8, 0x5bu8] + inside.push(end);
    let tail = escape + behind;
    let raw = before + tail;
    let a = before.len() as int;
    lemma_stripped_head(before, tail, 0);
    assert(before.skip(0) =~= before);
    assert(raw[a] == 0x1b && raw[a + 1] == 0x5b);
    let e = a + 2 + inside.len() as int;
    assert(raw[e] == end);
    assert forall|k: int| a + 2 <= k < e implies !ends_sequence(#[trigger] raw[k]) by {
        assert(raw[k] == inside[k - a - 2]);
    }
    lemma_sequence_skipped(raw, a + 2, e);
    assert(raw =~= (before + escape) + behind);
    lemma_stripped_behind(before + escape, behind, 0);
    assert((before + escape).len() == e + 1);
}

proof fn lemma_digits_run(s: Seq<char>, from: int, end: int)
    requires
        0 <= from <= end <= s.len(),
        forall|k: int| from <= k < end ==> is_digit(#[trigger] s[k]),
        end < s.len() ==> !is_digit(s[end]),
    ensures
        digits_end(s, from) == end,
    decreases end - from,
{
    if from < end {
        assert(is_digit(s[from]));
        lemma_digits_run(s, from + 1, end);
    }
}

proof fn lemma_plus_found(s: Seq<char>, from: int, at: int)
    requires
        0 <= from <= at < s.len(),
        s[at] == '+',
        forall|k: int| from <= k < at ==> #[trigger] s[k] != '+',
    ensures
        find_from(s, '+', from) == at,
    decreases at - from,
{
    if from < at {
        lemma_plus_found(s, from + 1, at);
    }
}

/// The line of a hunk is the number behind its plus, whatever stands around it.
pub proof fn law_a_hunk_starts_at_its_new_line(before: Seq<char>, n: nat, behind: Seq<char>)
    requires
        !before.contains('+'),
        n <= u32::MAX,
        behind.len() > 0 ==> !is_digit(behind[0]),
    ensures
        hunk_line(before.push('+') + dec(n) + behind) == Some(n),
{
    let s = before.push('+') + dec(n) + behind;
    let plus = before.len() as int;
    let end = plus + 1 + dec(n).len() as int;
    lemma_dec_is_plain(n);
    assert forall|k: int| 0 <= k < plus implies #[trigger] s[k] != '+' by {
        assert(s[k] == before[k]);
        assert(before.contains(before[k]));
    }
    lemma_plus_found(s, 0, plus);
    assert forall|k: int| plus + 1 <= k < end implies is_digit(#[trigger] s[k]) by {
        assert(s[k] == dec(n)[k - plus - 1]);
    }
    if end < s.len() {
        assert(s[end] == behind[0]);
    }
    lemma_digits_run(s, plus + 1, end);
    assert(s.subrange(plus + 1, end) =~= dec(n));
    law_written_numbers_are_read_back(n, u32::MAX as nat);
}

proof fn lemma_line_ends(raw: Seq<u8>, i: int, e: int)
    requires
        0 <= i <= e <= raw.len(),
        forall|k: int| i <= k < e ==> #[trigger] raw[k] != 10,
        e < raw.len() ==> raw[e] == 10,
    ensures
        line_end(raw, i) == e,
    decreases e - i,
{
    if i < e {
        lemma_line_ends(raw, i + 1, e);
    }
}

/// The first hunk is looked for line by line: lines that are no hunk headers are
/// passed over, and the first header decides.
pub proof fn law_the_first_hunk_header_decides(raw: Seq<u8>, i: int, e: int)
    requires
        0 <= i <= e < raw.len(),
        forall|k: int| i <= k < e ==> #[trigger] raw[k] != 10,
        raw[e] == 10,
    ensures
        i + 2 <= e && raw[i] == 0x40 && raw[i + 1] == 0x40 ==> first_hunk(raw, i) == hunk_line(
            lossy_text(raw.subrange(i, e)),
        ),
        !(i + 2 <= e && raw[i] == 0x40 && raw[i + 1] == 0x40) ==> first_hunk(raw, i) == first_hunk(
            raw,
            e + 1,
        ),
{
    lemma_line_ends(raw, i, e);
}

} // verus!
