//! Repository paths: strings with `/` between their components, compared and
//! ordered component by component, as `std::path::Path` does.
use crate::text::{
    append, chars_of, copy, law_joining_undoes_splitting, lemma_split_concat, lemma_split_whole,
    opt_str, same, split, split_at_char, string_of, strs,
};
use vstd::prelude::*;

verus! {

/// One component of a path.
pub enum Part {
    Root,
    Current,
    Parent,
    Name(Seq<char>),
}

/// One component of a path.
#[derive(Debug)]
pub enum Component {
    Root,
    Current,
    Parent,
    Name(String),
}

impl View for Component {
    type V = Part;

    open spec fn view(&self) -> Part {
        match self {
            Component::Root => Part::Root,
            Component::Current => Part::Current,
            Component::Parent => Part::Parent,
            Component::Name(s) => Part::Name(s@),
        }
    }
}

/// What a piece between two slashes stands for: nothing where it is empty, or
/// a dot that is not at the very start.
pub open spec fn part_of(piece: Seq<char>, first: bool) -> Option<Part> {
    if piece.len() == 0 {
        None
    } else if piece == seq!['.'] {
        if first {
            Some(Part::Current)
        } else {
            None
        }
    } else if piece == seq!['.', '.'] {
        Some(Part::Parent)
    } else {
        Some(Part::Name(piece))
    }
}

/// The components of the first `n` pieces.
pub open spec fn parts_of(pieces: Seq<Seq<char>>, n: int) -> Seq<Part>
    decreases n,
{
    if n <= 0 {
        Seq::empty()
    } else {
        match part_of(pieces[n - 1], n == 1) {
            Some(p) => parts_of(pieces, n - 1).push(p),
            None => parts_of(pieces, n - 1),
        }
    }
}

/// The components of a path.
pub open spec fn components(p: Seq<char>) -> Seq<Part> {
    let pieces = split(p, '/');
    let names = parts_of(pieces, pieces.len() as int);
    if p.len() > 0 && p[0] == '/' {
        seq![Part::Root] + names
    } else {
        names
    }
}

pub open spec fn comps(v: Seq<Component>) -> Seq<Part> {
    v.map_values(|c: Component| c@)
}

proof fn lemma_comps_push(v: Seq<Component>, c: Component)
    ensures
        comps(v.push(c)) == comps(v).push(c@),
{
    assert(comps(v.push(c)) =~= comps(v).push(c@));
}

/// The components of a path.
pub fn components_of(p: &str) -> (r: Vec<Component>)
    ensures
        comps(r@) == components(p@),
{
    let pieces = split_at_char(p, '/');
    let cs = chars_of(p);
    let mut out: Vec<Component> = Vec::new();
    let ghost lead = if p@.len() > 0 && p@[0] == '/' {
        seq![Part::Root]
    } else {
        Seq::empty()
    };
    if cs.len() > 0 && cs[0] == '/' {
        out.push(Component::Root);
    }
    assert(comps(out@) =~= lead + Seq::<Part>::empty());
    let mut i: usize = 0;
    while i < pieces.len()
        invariant
            i <= pieces@.len(),
            strs(pieces@) == split(p@, '/'),
            comps(out@) == lead + parts_of(strs(pieces@), i as int),
        decreases pieces@.len() - i,
    {
        let piece = pieces[i].as_str();
        let ghost before = parts_of(strs(pieces@), i as int);
        proof {
            assert(strs(pieces@)[i as int] == piece@);
            reveal_strlit(".");
            reveal_strlit("..");
            assert("."@ =~= seq!['.']);
            assert(".."@ =~= seq!['.', '.']);
        }
        let part: Option<Component> = if piece.is_empty() {
            None
        } else if same(piece, ".") {
            if i == 0 {
                Some(Component::Current)
            } else {
                None
            }
        } else if same(piece, "..") {
            Some(Component::Parent)
        } else {
            Some(Component::Name(copy(piece)))
        };
        match part {
            Some(c) => {
                proof {
                    lemma_comps_push(out@, c);
                    assert((lead + before).push(c@) =~= lead + before.push(c@));
                }
                out.push(c);
            },
            None => {},
        }
        i += 1;
    }
    assert(comps(out@) =~= components(p@));
    out
}

proof fn lemma_pieces_hold_no_separator(s: Seq<char>, sep: char)
    ensures
        split(s, sep).len() >= 1,
        forall|i: int| 0 <= i < split(s, sep).len() ==> !(#[trigger] split(s, sep)[i]).contains(sep),
    decreases s.len(),
{
    let pieces = split(s, sep);
    if s.len() > 0 {
        let before = split(s.drop_last(), sep);
        lemma_pieces_hold_no_separator(s.drop_last(), sep);
        assert forall|i: int| 0 <= i < pieces.len() implies !(#[trigger] pieces[i]).contains(sep) by {
            if i < before.len() - 1 {
                assert(pieces[i] == before[i]);
            } else if s.last() == sep {
                if i < before.len() {
                    assert(pieces[i] == before[i]);
                }
            } else {
                let last = before.last();
                assert(last == before[before.len() - 1]);
                let grown = last.push(s.last());
                assert(pieces[i] == grown);
                if grown.contains(sep) {
                    let k = choose|k: int| 0 <= k < grown.len() && grown[k] == sep;
                    assert(last[k] == sep);
                }
            }
        }
    }
}

/// A name stands between slashes, and is neither `.` nor `..`.
pub open spec fn is_proper(p: Part) -> bool {
    p matches Part::Name(s) ==> !s.contains('/') && s != seq!['.'] && s != seq!['.', '.']
}

proof fn lemma_parts_are_proper(pieces: Seq<Seq<char>>, n: int)
    requires
        0 <= n <= pieces.len(),
        forall|i: int| 0 <= i < pieces.len() ==> !(#[trigger] pieces[i]).contains('/'),
    ensures
        forall|i: int|
            0 <= i < parts_of(pieces, n).len() ==> is_proper(#[trigger] parts_of(pieces, n)[i]),
    decreases n,
{
    if n > 0 {
        lemma_parts_are_proper(pieces, n - 1);
        let before = parts_of(pieces, n - 1);
        let parts = parts_of(pieces, n);
        assert(!pieces[n - 1].contains('/'));
        assert forall|i: int| 0 <= i < parts.len() implies is_proper(#[trigger] parts[i]) by {
            if i < before.len() {
                assert(parts[i] == before[i]);
            }
        }
    }
}

/// The names among a path's components are proper ones.
pub proof fn lemma_components_are_proper(p: Seq<char>)
    ensures
        forall|i: int| 0 <= i < components(p).len() ==> is_proper(#[trigger] components(p)[i]),
{
    let pieces = split(p, '/');
    lemma_pieces_hold_no_separator(p, '/');
    lemma_parts_are_proper(pieces, pieces.len() as int);
}

// ---- order -----------------------------------------------------------------

/// Lexicographic order of two strings: negative, zero or positive.
pub open spec fn order_chars(a: Seq<char>, b: Seq<char>) -> int
    decreases a.len(),
{
    if a.len() == 0 {
        if b.len() == 0 {
            0
        } else {
            -1
        }
    } else if b.len() == 0 {
        1
    } else if a[0] < b[0] {
        -1
    } else if a[0] > b[0] {
        1
    } else {
        order_chars(a.drop_first(), b.drop_first())
    }
}

pub open spec fn rank(p: Part) -> int {
    match p {
        Part::Root => 0,
        Part::Current => 1,
        Part::Parent => 2,
        Part::Name(_) => 3,
    }
}

/// Order of two components: the root, then `.`, then `..`, then names.
pub open spec fn order_part(a: Part, b: Part) -> int {
    if rank(a) < rank(b) {
        -1
    } else if rank(a) > rank(b) {
        1
    } else {
        match (a, b) {
            (Part::Name(x), Part::Name(y)) => order_chars(x, y),
            _ => 0,
        }
    }
}

/// Lexicographic order of two paths, component by component.
pub open spec fn order_parts(a: Seq<Part>, b: Seq<Part>) -> int
    decreases a.len(),
{
    if a.len() == 0 {
        if b.len() == 0 {
            0
        } else {
            -1
        }
    } else if b.len() == 0 {
        1
    } else if order_part(a[0], b[0]) != 0 {
        order_part(a[0], b[0])
    } else {
        order_parts(a.drop_first(), b.drop_first())
    }
}

/// Order of two paths.
pub open spec fn order_paths(a: Seq<char>, b: Seq<char>) -> int {
    order_parts(components(a), components(b))
}

/// Two paths are the same: their components are.
pub open spec fn same_path(a: Seq<char>, b: Seq<char>) -> bool {
    components(a) == components(b)
}

pub proof fn lemma_order_chars_flip(a: Seq<char>, b: Seq<char>)
    ensures
        order_chars(a, b) == -order_chars(b, a),
        -1 <= order_chars(a, b) <= 1,
        order_chars(a, b) == 0 <==> a == b,
    decreases a.len(),
{
    if a.len() > 0 && b.len() > 0 && a[0] == b[0] {
        lemma_order_chars_flip(a.drop_first(), b.drop_first());
        assert(a =~= seq![a[0]] + a.drop_first());
        assert(b =~= seq![b[0]] + b.drop_first());
    } else if a.len() == 0 && b.len() == 0 {
        assert(a =~= b);
    }
}

pub proof fn lemma_order_chars_trans(a: Seq<char>, b: Seq<char>, c: Seq<char>)
    requires
        order_chars(a, b) <= 0,
        order_chars(b, c) <= 0,
    ensures
        order_chars(a, c) <= 0,
        order_chars(a, c) == 0 ==> order_chars(a, b) == 0 && order_chars(b, c) == 0,
    decreases a.len(),
{
    if a.len() > 0 && b.len() > 0 && c.len() > 0 && a[0] == b[0] && b[0] == c[0] {
        lemma_order_chars_trans(a.drop_first(), b.drop_first(), c.drop_first());
    }
}

pub proof fn lemma_order_parts_flip(a: Seq<Part>, b: Seq<Part>)
    ensures
        order_parts(a, b) == -order_parts(b, a),
        -1 <= order_parts(a, b) <= 1,
        order_parts(a, b) == 0 <==> a == b,
    decreases a.len(),
{
    if a.len() > 0 && b.len() > 0 {
        if let (Part::Name(x), Part::Name(y)) = (a[0], b[0]) {
            lemma_order_chars_flip(x, y);
        }
        assert(order_part(a[0], b[0]) == 0 <==> a[0] == b[0]);
        lemma_order_parts_flip(a.drop_first(), b.drop_first());
        assert(a =~= seq![a[0]] + a.drop_first());
        assert(b =~= seq![b[0]] + b.drop_first());
    } else if a.len() == 0 && b.len() == 0 {
        assert(a =~= b);
    }
}

pub proof fn lemma_order_parts_trans(a: Seq<Part>, b: Seq<Part>, c: Seq<Part>)
    requires
        order_parts(a, b) <= 0,
        order_parts(b, c) <= 0,
    ensures
        order_parts(a, c) <= 0,
    decreases a.len(),
{
    if a.len() > 0 && b.len() > 0 && c.len() > 0 {
        if let (Part::Name(x), Part::Name(y)) = (a[0], b[0]) {
            if let Part::Name(z) = c[0] {
                lemma_order_chars_flip(x, y);
                lemma_order_chars_flip(y, z);
                lemma_order_chars_flip(x, z);
                if order_chars(x, y) <= 0 && order_chars(y, z) <= 0 {
                    lemma_order_chars_trans(x, y, z);
                }
            }
        }
        if order_part(a[0], b[0]) == 0 && order_part(b[0], c[0]) == 0 {
            lemma_order_parts_trans(a.drop_first(), b.drop_first(), c.drop_first());
        }
    }
}

/// `str` order: by code point, which is the order of the UTF-8 bytes.
pub fn chars_order(a: &str, b: &str) -> (r: i8)
    ensures
        r == order_chars(a@, b@),
{
    let x = chars_of(a);
    let y = chars_of(b);
    let mut i: usize = 0;
    assert(x@.skip(0) =~= x@);
    assert(y@.skip(0) =~= y@);
    while i < x.len() && i < y.len()
        invariant
            i <= x@.len(),
            i <= y@.len(),
            x@ == a@,
            y@ == b@,
            order_chars(x@.skip(i as int), y@.skip(i as int)) == order_chars(a@, b@),
        decreases x@.len() - i,
    {
        if x[i] < y[i] {
            return -1;
        }
        if x[i] > y[i] {
            return 1;
        }
        proof {
            assert(x@.skip(i as int).drop_first() =~= x@.skip(i + 1));
            assert(y@.skip(i as int).drop_first() =~= y@.skip(i + 1));
        }
        i += 1;
    }
    if i < y.len() {
        -1
    } else if i < x.len() {
        1
    } else {
        0
    }
}

fn part_rank(c: &Component) -> (r: i8)
    ensures
        r == rank(c@),
{
    match c {
        Component::Root => 0,
        Component::Current => 1,
        Component::Parent => 2,
        Component::Name(_) => 3,
    }
}

fn part_order(a: &Component, b: &Component) -> (r: i8)
    ensures
        r == order_part(a@, b@),
{
    let x = part_rank(a);
    let y = part_rank(b);
    if x < y {
        -1
    } else if x > y {
        1
    } else {
        match (a, b) {
            (Component::Name(s), Component::Name(t)) => chars_order(s.as_str(), t.as_str()),
            _ => 0,
        }
    }
}

/// Order of two paths: negative, zero or positive.
pub fn path_order(a: &str, b: &str) -> (r: i8)
    ensures
        r == order_paths(a@, b@),
{
    let x = components_of(a);
    let y = components_of(b);
    let mut i: usize = 0;
    assert(comps(x@).skip(0) =~= comps(x@));
    assert(comps(y@).skip(0) =~= comps(y@));
    while i < x.len() && i < y.len()
        invariant
            i <= x@.len(),
            i <= y@.len(),
            order_parts(comps(x@).skip(i as int), comps(y@).skip(i as int)) == order_paths(a@, b@),
        decreases x@.len() - i,
    {
        assert(comps(x@)[i as int] == x@[i as int]@);
        assert(comps(y@)[i as int] == y@[i as int]@);
        let o = part_order(&x[i], &y[i]);
        if o != 0 {
            return o;
        }
        proof {
            assert(comps(x@).skip(i as int).drop_first() =~= comps(x@).skip(i + 1));
            assert(comps(y@).skip(i as int).drop_first() =~= comps(y@).skip(i + 1));
        }
        i += 1;
    }
    if i < y.len() {
        -1
    } else if i < x.len() {
        1
    } else {
        0
    }
}

/// Whether two paths are the same, component by component.
pub fn path_eq(a: &str, b: &str) -> (r: bool)
    ensures
        r == same_path(a@, b@),
{
    proof {
        lemma_order_parts_flip(components(a@), components(b@));
    }
    path_order(a, b) == 0
}

// ---- file names ------------------------------------------------------------

/// The last component, where it is a name.
pub open spec fn file_name(p: Seq<char>) -> Option<Seq<char>> {
    let c = components(p);
    if c.len() == 0 {
        None
    } else {
        match c.last() {
            Part::Name(s) => Some(s),
            _ => None,
        }
    }
}

/// Position of the last `c` in `s[..n]`; -1 where there is none.
pub open spec fn rfind(s: Seq<char>, c: char, n: int) -> int
    decreases n,
{
    if n <= 0 || n > s.len() {
        -1
    } else if s[n - 1] == c {
        n - 1
    } else {
        rfind(s, c, n - 1)
    }
}

/// What follows the last dot of the file's name; a leading dot starts none.
pub open spec fn extension(p: Seq<char>) -> Option<Seq<char>> {
    match file_name(p) {
        None => None,
        Some(name) => {
            let dot = rfind(name, '.', name.len() as int);
            if dot <= 0 {
                None
            } else {
                Some(name.skip(dot + 1))
            }
        },
    }
}

/// Position of the last `c` in `cs[..n]`.
pub fn rfind_char(cs: &Vec<char>, c: char, n: usize) -> (r: Option<usize>)
    requires
        n <= cs@.len(),
    ensures
        r is None <==> rfind(cs@, c, n as int) < 0,
        r is Some ==> r->0 == rfind(cs@, c, n as int) && r->0 < n && cs@[r->0 as int] == c,
{
    let mut k: usize = n;
    while k > 0
        invariant
            k <= n <= cs@.len(),
            rfind(cs@, c, k as int) == rfind(cs@, c, n as int),
        decreases k,
    {
        if cs[k - 1] == c {
            return Some(k - 1);
        }
        k -= 1;
    }
    None
}

/// `Path::file_name`.
pub fn file_name_of(p: &str) -> (r: Option<String>)
    ensures
        opt_str(r) == file_name(p@),
{
    let c = components_of(p);
    if c.len() == 0 {
        assert(comps(c@).len() == 0);
        return None;
    }
    assert(comps(c@).last() == c@.last()@);
    match &c[c.len() - 1] {
        Component::Name(s) => Some(copy(s.as_str())),
        _ => None,
    }
}

/// `Path::extension`.
pub fn extension_of(p: &str) -> (r: Option<String>)
    ensures
        opt_str(r) == extension(p@),
{
    match file_name_of(p) {
        None => None,
        Some(name) => {
            let cs = chars_of(name.as_str());
            match rfind_char(&cs, '.', cs.len()) {
                Some(dot) => {
                    if dot == 0 {
                        None
                    } else {
                        let ext = string_of(&cs, dot + 1, cs.len());
                        assert(ext@ =~= name@.skip(dot + 1));
                        Some(ext)
                    }
                },
                None => None,
            }
        },
    }
}

pub proof fn lemma_rfind(s: Seq<char>, c: char, n: int)
    requires
        n <= s.len(),
    ensures
        -1 <= rfind(s, c, n),
        n >= 0 ==> rfind(s, c, n) < n || n == 0,
        rfind(s, c, n) >= 0 ==> s[rfind(s, c, n)] == c,
        forall|k: int| rfind(s, c, n) < k < n && 0 <= k ==> s[k] != c,
    decreases n,
{
    if n > 0 && s[n - 1] != c {
        lemma_rfind(s, c, n - 1);
    }
}

/// Where the name of `p[..n]`'s last component stands; `None` where the last
/// component is no name. Slashes at the end and `/.` do not count.
pub open spec fn name_span(p: Seq<char>, n: int) -> Option<(int, int)>
    decreases n,
{
    if n <= 0 || n > p.len() {
        None
    } else if p[n - 1] == '/' {
        name_span(p, n - 1)
    } else {
        let a = rfind(p, '/', n) + 1;
        let piece = p.subrange(a, n);
        if piece == seq!['.'] && a > 0 {
            proof {
                lemma_rfind(p, '/', n - 1);
            }
            name_span(p, a)
        } else if piece == seq!['.'] || piece == seq!['.', '.'] {
            None
        } else {
            Some((a, n))
        }
    }
}

/// The path with its file's extension replaced.
pub open spec fn with_ext(p: Seq<char>, ext: Seq<char>) -> Seq<char> {
    match name_span(p, p.len() as int) {
        None => p,
        Some((a, b)) => {
            let dot = rfind(p.subrange(a, b), '.', b - a);
            p.take(
                if dot <= 0 {
                    b
                } else {
                    a + dot
                },
            ) + "."@ + ext
        },
    }
}

fn is_dot(cs: &Vec<char>, a: usize, b: usize) -> (r: bool)
    requires
        a <= b <= cs@.len(),
    ensures
        r == (cs@.subrange(a as int, b as int) == seq!['.']),
{
    let ghost piece = cs@.subrange(a as int, b as int);
    if b - a == 1 && cs[a] == '.' {
        assert(piece =~= seq!['.']);
        true
    } else {
        assert(piece.len() == b - a);
        assert(piece.len() == 1 ==> piece[0] == cs@[a as int]);
        assert(seq!['.'].len() == 1 && seq!['.'][0] == '.');
        false
    }
}

fn is_dots(cs: &Vec<char>, a: usize, b: usize) -> (r: bool)
    requires
        a <= b <= cs@.len(),
    ensures
        r == (cs@.subrange(a as int, b as int) == seq!['.', '.']),
{
    let ghost piece = cs@.subrange(a as int, b as int);
    if b - a == 2 && cs[a] == '.' && cs[a + 1] == '.' {
        assert(piece =~= seq!['.', '.']);
        true
    } else {
        assert(piece.len() == b - a);
        assert(piece.len() == 2 ==> piece[0] == cs@[a as int] && piece[1] == cs@[a + 1]);
        assert(seq!['.', '.'].len() == 2 && seq!['.', '.'][0] == '.' && seq!['.', '.'][1] == '.');
        false
    }
}

fn find_name(cs: &Vec<char>) -> (r: Option<(usize, usize)>)
    ensures
        (match r {
            Some(p) => name_span(cs@, cs@.len() as int) == Some((p.0 as int, p.1 as int)) && p.0
                < p.1 <= cs@.len(),
            None => name_span(cs@, cs@.len() as int) is None,
        }),
{
    let mut n: usize = cs.len();
    while n > 0
        invariant
            n <= cs@.len(),
            name_span(cs@, cs@.len() as int) == name_span(cs@, n as int),
        decreases n,
    {
        if cs[n - 1] == '/' {
            n -= 1;
        } else {
            proof {
                lemma_rfind(cs@, '/', n as int);
                lemma_rfind(cs@, '/', n - 1);
            }
            let a: usize = match rfind_char(cs, '/', n) {
                Some(k) => k + 1,
                None => 0,
            };
            assert(a == rfind(cs@, '/', n as int) + 1);
            if is_dot(cs, a, n) {
                if a > 0 {
                    n = a;
                } else {
                    return None;
                }
            } else if is_dots(cs, a, n) {
                return None;
            } else {
                return Some((a, n));
            }
        }
    }
    None
}

/// `Path::with_extension`, with an extension that is not empty.
pub fn with_extension(p: &str, ext: &str) -> (r: String)
    ensures
        r@ == with_ext(p@, ext@),
{
    let cs = chars_of(p);
    match find_name(&cs) {
        None => copy(p),
        Some((a, b)) => {
            let name = string_of(&cs, a, b);
            let ns = chars_of(name.as_str());
            let end: usize = match rfind_char(&ns, '.', ns.len()) {
                Some(dot) => if dot == 0 {
                    b
                } else {
                    a + dot
                },
                None => b,
            };
            let mut out = string_of(&cs, 0, end);
            assert(out@ =~= p@.take(end as int));
            append(&mut out, ".");
            append(&mut out, ext);
            out
        },
    }
}

/// `file` under the directory `root`; an absolute `file` stands for itself.
pub open spec fn join_path(root: Seq<char>, file: Seq<char>) -> Seq<char> {
    if file.len() > 0 && file[0] == '/' {
        file
    } else if root.len() == 0 || root.last() == '/' {
        root + file
    } else {
        root + "/"@ + file
    }
}

/// `Path::join`.
pub fn joined_path(root: &str, file: &str) -> (r: String)
    ensures
        r@ == join_path(root@, file@),
{
    let fs = chars_of(file);
    if fs.len() > 0 && fs[0] == '/' {
        return copy(file);
    }
    let rs = chars_of(root);
    let mut out = copy(root);
    if rs.len() > 0 && rs[rs.len() - 1] != '/' {
        append(&mut out, "/");
    }
    append(&mut out, file);
    out
}

// ---- what paths are made of ----------------------------------------------------

/// A name that a file can have: not empty, without a slash, neither `.` nor `..`.
pub open spec fn plain_name(s: Seq<char>) -> bool {
    s.len() > 0 && !s.contains('/') && s != seq!['.'] && s != seq!['.', '.']
}

/// The components of pieces that do not stand at the start of a path.
pub open spec fn later_parts(pieces: Seq<Seq<char>>) -> Seq<Part>
    decreases pieces.len(),
{
    if pieces.len() == 0 {
        Seq::empty()
    } else {
        match part_of(pieces.last(), false) {
            Some(p) => later_parts(pieces.drop_last()).push(p),
            None => later_parts(pieces.drop_last()),
        }
    }
}

proof fn lemma_parts_within(a: Seq<Seq<char>>, b: Seq<Seq<char>>, n: int)
    requires
        0 <= n <= a.len(),
        n <= b.len(),
        a.take(n) =~= b.take(n),
    ensures
        parts_of(a, n) == parts_of(b, n),
    decreases n,
{
    if n > 0 {
        assert(a.take(n)[n - 1] == b.take(n)[n - 1]);
        assert(a.take(n - 1) =~= a.take(n).take(n - 1));
        assert(b.take(n - 1) =~= b.take(n).take(n - 1));
        lemma_parts_within(a, b, n - 1);
    }
}

proof fn lemma_parts_concat(a: Seq<Seq<char>>, b: Seq<Seq<char>>)
    requires
        a.len() > 0,
    ensures
        parts_of(a + b, (a + b).len() as int) == parts_of(a, a.len() as int) + later_parts(b),
    decreases b.len(),
{
    let whole = a + b;
    if b.len() == 0 {
        assert(whole =~= a);
        assert(parts_of(a, a.len() as int) + later_parts(b) =~= parts_of(a, a.len() as int));
    } else {
        let init = b.drop_last();
        lemma_parts_concat(a, init);
        assert(whole.take(whole.len() - 1) =~= (a + init).take(whole.len() - 1));
        lemma_parts_within(whole, a + init, whole.len() - 1);
        assert(whole[whole.len() - 1] == b.last());
        assert(parts_of(whole, whole.len() as int) =~= parts_of(a, a.len() as int) + later_parts(
            b,
        ));
    }
}

proof fn lemma_parts_of_later(pieces: Seq<Seq<char>>, n: int)
    requires
        0 <= n <= pieces.len(),
        n > 0 ==> pieces[0] != seq!['.'],
    ensures
        parts_of(pieces, n) == later_parts(pieces.take(n)),
    decreases n,
{
    if n > 0 {
        lemma_parts_of_later(pieces, n - 1);
        assert(pieces.take(n).drop_last() =~= pieces.take(n - 1));
        assert(pieces.take(n).last() == pieces[n - 1]);
    }
}

/// A path under a directory goes through the directory's components and then
/// through its own; an absolute one goes through its own alone.
pub proof fn law_a_joined_path_goes_through_both(root: Seq<char>, file: Seq<char>)
    requires
        root.len() > 0,
        file.len() > 0,
        split(file, '/')[0] != seq!['.'],
    ensures
        file[0] == '/' ==> join_path(root, file) == file,
        file[0] != '/' ==> components(join_path(root, file)) == components(root) + components(file),
{
    if file[0] != '/' {
        reveal_strlit("/");
        assert("/"@ =~= seq!['/']);
        let joined = join_path(root, file);
        let own = split(file, '/');
        law_joining_undoes_splitting(file, '/');
        lemma_parts_of_later(own, own.len() as int);
        assert(own.take(own.len() as int) =~= own);
        let dir = if root.last() == '/' {
            root.drop_last()
        } else {
            root
        };
        let above = split(dir, '/');
        law_joining_undoes_splitting(dir, '/');
        assert(joined =~= dir.push('/') + file);
        lemma_split_concat(dir, file, '/');
        lemma_parts_concat(above, own);
        assert(joined[0] == root[0]);
        if root.last() == '/' {
            let none = Seq::<char>::empty();
            assert(root =~= dir.push('/') + none);
            lemma_split_concat(dir, none, '/');
            lemma_parts_concat(above, split(none, '/'));
            assert(split(none, '/') =~= seq![none]);
            assert(seq![none].drop_last() =~= Seq::<Seq<char>>::empty());
            assert(later_parts(seq![none]) =~= Seq::<Part>::empty()) by {
                assert(later_parts(seq![none].drop_last()) =~= Seq::<Part>::empty());
            }
            assert(parts_of(above, above.len() as int) + Seq::<Part>::empty() =~= parts_of(
                above,
                above.len() as int,
            ));
        }
        assert(components(joined) =~= components(root) + components(file));
    }
}

/// The name of a file in a directory is its name.
pub proof fn law_the_name_is_behind_the_last_slash(dir: Seq<char>, name: Seq<char>)
    requires
        plain_name(name),
    ensures
        file_name(dir.push('/') + name) == Some(name),
        file_name(name) == Some(name),
{
    lemma_split_whole(name, '/');
    lemma_split_concat(dir, name, '/');
    let above = split(dir, '/');
    law_joining_undoes_splitting(dir, '/');
    lemma_parts_concat(above, seq![name]);
    assert(seq![name].drop_last() =~= Seq::<Seq<char>>::empty());
    assert(later_parts(seq![name]) =~= seq![Part::Name(name)]) by {
        assert(later_parts(seq![name].drop_last()) =~= Seq::<Part>::empty());
    }
    let whole = dir.push('/') + name;
    assert(components(whole).last() == Part::Name(name));
    assert(!name.contains('/'));
    assert(name[0] != '/') by {
        assert(name.contains(name[0]));
    }
    assert(parts_of(seq![name], 0) =~= Seq::<Part>::empty());
    assert(parts_of(seq![name], 1) =~= seq![Part::Name(name)]);
    assert(components(name) =~= seq![Part::Name(name)]);
}

proof fn lemma_rfind_at(s: Seq<char>, c: char, at: int, n: int)
    requires
        0 <= at < n <= s.len(),
        s[at] == c,
        forall|k: int| at < k < n ==> #[trigger] s[k] != c,
    ensures
        rfind(s, c, n) == at,
    decreases n,
{
    if at < n - 1 {
        lemma_rfind_at(s, c, at, n - 1);
    }
}

proof fn lemma_rfind_none(s: Seq<char>, c: char, n: int)
    requires
        0 <= n <= s.len(),
        forall|k: int| 0 <= k < n ==> #[trigger] s[k] != c,
    ensures
        rfind(s, c, n) == -1,
    decreases n,
{
    if n > 0 {
        lemma_rfind_none(s, c, n - 1);
    }
}

/// The extension is what stands behind the last dot of a name, unless that is
/// the name's first character.
pub proof fn law_the_extension_is_behind_the_last_dot(
    dir: Seq<char>,
    stem: Seq<char>,
    ext: Seq<char>,
)
    requires
        !ext.contains('.'),
        plain_name(stem.push('.') + ext),
    ensures
        extension(dir.push('/') + (stem.push('.') + ext)) == if stem.len() > 0 {
            Some(ext)
        } else {
            None
        },
        plain_name(ext) ==> extension(dir.push('/') + ext) is None,
{
    let name = stem.push('.') + ext;
    law_the_name_is_behind_the_last_slash(dir, name);
    assert forall|k: int| stem.len() < k < name.len() implies #[trigger] name[k] != '.' by {
        assert(name[k] == ext[k - stem.len() - 1]);
        assert(ext.contains(name[k]));
    }
    assert(name[stem.len() as int] == '.');
    lemma_rfind_at(name, '.', stem.len() as int, name.len() as int);
    assert(name.skip(stem.len() as int + 1) =~= ext);
    if plain_name(ext) {
        law_the_name_is_behind_the_last_slash(dir, ext);
        assert forall|k: int| 0 <= k < ext.len() implies #[trigger] ext[k] != '.' by {
            assert(ext.contains(ext[k]));
        }
        lemma_rfind_none(ext, '.', ext.len() as int);
    }
}

/// A new extension takes the place of the old one.
pub proof fn law_an_extension_is_replaced(
    dir: Seq<char>,
    stem: Seq<char>,
    ext: Seq<char>,
    new_ext: Seq<char>,
)
    requires
        stem.len() > 0,
        !ext.contains('.'),
        plain_name(stem.push('.') + ext),
    ensures
        with_ext(dir.push('/') + (stem.push('.') + ext), new_ext) == dir.push('/') + (stem.push('.')
            + new_ext),
{
    reveal_strlit(".");
    assert("."@ =~= seq!['.']);
    let name = stem.push('.') + ext;
    let p = dir.push('/') + name;
    let a = dir.len() as int + 1;
    let n = p.len() as int;
    assert forall|k: int| dir.len() < k < n implies #[trigger] p[k] != '/' by {
        assert(p[k] == name[k - a]);
        assert(name.contains(p[k]));
    }
    assert(p[dir.len() as int] == '/');
    lemma_rfind_at(p, '/', dir.len() as int, n);
    assert(p.subrange(a, n) =~= name);
    assert(p[n - 1] != '/');
    assert(name_span(p, n) == Some((a, n)));
    assert forall|k: int| stem.len() < k < name.len() implies #[trigger] name[k] != '.' by {
        assert(name[k] == ext[k - stem.len() - 1]);
        assert(ext.contains(name[k]));
    }
    assert(name[stem.len() as int] == '.');
    lemma_rfind_at(name, '.', stem.len() as int, name.len() as int);
    assert(p.take(a + stem.len() as int) + "."@ + new_ext =~= dir.push('/') + (stem.push('.')
        + new_ext));
}

} // verus!
