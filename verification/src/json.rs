//! Reading the JSON replies of the host.
use crate::text::{copy, ends_with, has_suffix, lemma_strs_push, same, strs};
use serde_json::Value;
use vstd::prelude::*;

verus! {

broadcast use vstd::string::group_string_axioms;

// ---- values ----------------------------------------------------------------------

/// `serde_json::Value`, a parsed document. What it holds is told by `json_of`.
#[verifier::external_type_specification]
#[verifier::external_body]
pub struct ExValue(serde_json::Value);

/// A JSON document. Of a number only its value as an unsigned integer is kept,
/// and an object's fields are in the order in which they are walked.
pub enum Json {
    Null,
    Bool(bool),
    Number(Option<u64>),
    Text(Seq<char>),
    Array(Seq<Json>),
    Object(Seq<(Seq<char>, Json)>),
}

/// What a parsed document holds.
pub uninterp spec fn json_of(value: Value) -> Json;

/// What `serde_json::from_str` reads from a text.
pub uninterp spec fn parsed_text(text: Seq<char>) -> Option<Json>;

/// What `serde_json::from_slice` reads from bytes.
pub uninterp spec fn parsed_bytes(bytes: Seq<u8>) -> Option<Json>;

pub open spec fn opt_json(v: Option<Value>) -> Option<Json> {
    match v {
        Some(v) => Some(json_of(v)),
        None => None,
    }
}

pub open spec fn items_of(v: Seq<Value>) -> Seq<Json> {
    v.map_values(|x: Value| json_of(x))
}

pub open spec fn fields_of(v: Seq<(&String, &Value)>) -> Seq<(Seq<char>, Json)> {
    v.map_values(|x: (&String, &Value)| (x.0@, json_of(*x.1)))
}

/// One level of a document.
pub enum Node<'a> {
    Null,
    Bool(bool),
    Number(Option<u64>),
    Text(&'a String),
    Array(&'a Vec<Value>),
    Object(Vec<(&'a String, &'a Value)>),
}

pub open spec fn node_view(n: Node) -> Json {
    match n {
        Node::Null => Json::Null,
        Node::Bool(b) => Json::Bool(b),
        Node::Number(n) => Json::Number(n),
        Node::Text(s) => Json::Text(s@),
        Node::Array(v) => Json::Array(items_of(v@)),
        Node::Object(v) => Json::Object(fields_of(v@)),
    }
}

/// Tells the variants of a `serde_json::Value` apart: a number is read with
/// `Number::as_u64`, and an object's fields come from `Map::iter`, in its order.
#[verifier::external_body]
pub(crate) fn node(value: &Value) -> (r: Node)
    ensures
        node_view(r) == json_of(*value),
{
    match value {
        Value::Null => Node::Null,
        Value::Bool(b) => Node::Bool(*b),
        Value::Number(n) => Node::Number(n.as_u64()),
        Value::String(s) => Node::Text(s),
        Value::Array(v) => Node::Array(v),
        Value::Object(map) => Node::Object(map.iter().collect()),
    }
}

/// `serde_json::from_str` into a `Value`; what it accepts and reads is left to
/// its name.
#[verifier::external_body]
pub(crate) fn from_text(text: &str) -> (r: Option<Value>)
    ensures
        opt_json(r) == parsed_text(text@),
{
    serde_json::from_str(text).ok()
}

/// `serde_json::from_slice` into a `Value`; what it accepts and reads is left
/// to its name.
#[verifier::external_body]
pub(crate) fn from_bytes(bytes: &[u8]) -> (r: Option<Value>)
    ensures
        opt_json(r) == parsed_bytes(bytes@),
{
    serde_json::from_slice(bytes).ok()
}

// ---- fields ----------------------------------------------------------------------

/// The value of the first field from `i` on that is called `key`.
pub open spec fn lookup(fields: Seq<(Seq<char>, Json)>, key: Seq<char>, i: int) -> Option<Json>
    decreases fields.len() - i,
{
    if i < 0 || i >= fields.len() {
        None
    } else if fields[i].0 == key {
        Some(fields[i].1)
    } else {
        lookup(fields, key, i + 1)
    }
}

impl Json {
    /// The field called `key`.
    pub open spec fn field(self, key: Seq<char>) -> Option<Json> {
        match self {
            Json::Object(fields) => lookup(fields, key, 0),
            _ => None,
        }
    }

    pub open spec fn text(self) -> Option<Seq<char>> {
        match self {
            Json::Text(s) => Some(s),
            _ => None,
        }
    }

    pub open spec fn number(self) -> Option<u64> {
        match self {
            Json::Number(n) => n,
            _ => None,
        }
    }

    pub open spec fn array(self) -> Option<Seq<Json>> {
        match self {
            Json::Array(items) => Some(items),
            _ => None,
        }
    }

    /// The text of the field called `key`.
    pub open spec fn text_field(self, key: Seq<char>) -> Option<Seq<char>> {
        match self.field(key) {
            Some(v) => v.text(),
            None => None,
        }
    }

    /// The text of the field called `key`, or none.
    pub open spec fn text_or_empty(self, key: Seq<char>) -> Seq<char> {
        match self.text_field(key) {
            Some(s) => s,
            None => Seq::empty(),
        }
    }

    /// The array in the field called `key`.
    pub open spec fn array_field(self, key: Seq<char>) -> Option<Seq<Json>> {
        match self.field(key) {
            Some(v) => v.array(),
            None => None,
        }
    }

    /// The value two fields down.
    pub open spec fn at(self, outer: Seq<char>, inner: Seq<char>) -> Option<Json> {
        match self.field(outer) {
            Some(v) => v.field(inner),
            None => None,
        }
    }
}

pub open spec fn ref_json(v: Option<&Value>) -> Option<Json> {
    match v {
        Some(v) => Some(json_of(*v)),
        None => None,
    }
}

/// The field of an object called `key`.
pub fn get<'a>(value: &'a Value, key: &str) -> (r: Option<&'a Value>)
    ensures
        ref_json(r) == json_of(*value).field(key@),
{
    match node(value) {
        Node::Object(fields) => {
            let ghost all = fields_of(fields@);
            let mut i: usize = 0;
            while i < fields.len()
                invariant
                    i <= fields@.len(),
                    all == fields_of(fields@),
                    json_of(*value) == Json::Object(all),
                    lookup(all, key@, 0) == lookup(all, key@, i as int),
                decreases fields@.len() - i,
            {
                let f = fields[i];
                assert(all[i as int] == (f.0@, json_of(*f.1)));
                if same(f.0.as_str(), key) {
                    return Some(f.1);
                }
                i += 1;
            }
            None
        },
        _ => None,
    }
}

/// The value two fields down.
pub fn get_at<'a>(value: &'a Value, outer: &str, inner: &str) -> (r: Option<&'a Value>)
    ensures
        ref_json(r) == json_of(*value).at(outer@, inner@),
{
    match get(value, outer) {
        Some(v) => get(v, inner),
        None => None,
    }
}

pub open spec fn ref_text(v: Option<&String>) -> Option<Seq<char>> {
    match v {
        Some(s) => Some(s@),
        None => None,
    }
}

/// A value's text.
pub fn as_str<'a>(value: &'a Value) -> (r: Option<&'a String>)
    ensures
        ref_text(r) == json_of(*value).text(),
{
    match node(value) {
        Node::Text(s) => Some(s),
        _ => None,
    }
}

/// A value as an unsigned integer.
pub fn as_u64(value: &Value) -> (r: Option<u64>)
    ensures
        r == json_of(*value).number(),
{
    match node(value) {
        Node::Number(n) => n,
        _ => None,
    }
}

pub open spec fn ref_items(v: Option<&Vec<Value>>) -> Option<Seq<Json>> {
    match v {
        Some(v) => Some(items_of(v@)),
        None => None,
    }
}

/// A value's items.
pub fn as_array<'a>(value: &'a Value) -> (r: Option<&'a Vec<Value>>)
    ensures
        ref_items(r) == json_of(*value).array(),
{
    match node(value) {
        Node::Array(v) => Some(v),
        _ => None,
    }
}

/// The text of the field called `key`.
pub fn text_field<'a>(value: &'a Value, key: &str) -> (r: Option<&'a String>)
    ensures
        ref_text(r) == json_of(*value).text_field(key@),
{
    match get(value, key) {
        Some(v) => as_str(v),
        None => None,
    }
}

/// The text of the field called `key`, or none.
pub fn text_or_empty(value: &Value, key: &str) -> (r: String)
    ensures
        r@ == json_of(*value).text_or_empty(key@),
{
    match text_field(value, key) {
        Some(s) => copy(s.as_str()),
        None => String::new(),
    }
}

/// The array in the field called `key`.
pub fn array_field<'a>(value: &'a Value, key: &str) -> (r: Option<&'a Vec<Value>>)
    ensures
        ref_items(r) == json_of(*value).array_field(key@),
{
    match get(value, key) {
        Some(v) => as_array(v),
        None => None,
    }
}

// ---- searching at any depth ------------------------------------------------------

/// The first text under `key`, depth first: an object's own field comes before
/// what is inside its fields.
pub open spec fn first_text(j: Json, key: Seq<char>) -> Option<Seq<char>>
    decreases j, 0int,
{
    match j {
        Json::Object(fields) => match j.text_field(key) {
            Some(s) => Some(s),
            None => first_text_in_fields(fields, key, 0),
        },
        Json::Array(items) => first_text_in_items(items, key, 0),
        _ => None,
    }
}

pub open spec fn first_text_in_fields(
    fields: Seq<(Seq<char>, Json)>,
    key: Seq<char>,
    i: int,
) -> Option<Seq<char>>
    decreases fields, fields.len() - i,
{
    if i < 0 || i >= fields.len() {
        None
    } else {
        match first_text(fields[i].1, key) {
            Some(s) => Some(s),
            None => first_text_in_fields(fields, key, i + 1),
        }
    }
}

pub open spec fn first_text_in_items(items: Seq<Json>, key: Seq<char>, i: int) -> Option<Seq<char>>
    decreases items, items.len() - i,
{
    if i < 0 || i >= items.len() {
        None
    } else {
        match first_text(items[i], key) {
            Some(s) => Some(s),
            None => first_text_in_items(items, key, i + 1),
        }
    }
}

/// Depth-first search for the first string value under `key`.
pub fn find_str<'a>(value: &'a Value, key: &str) -> (r: Option<&'a String>)
    ensures
        ref_text(r) == first_text(json_of(*value), key@),
    decreases json_of(*value),
{
    let ghost doc = json_of(*value);
    match node(value) {
        Node::Object(fields) => {
            if let Some(s) = text_field(value, key) {
                return Some(s);
            }
            let ghost all = fields_of(fields@);
            assert(doc == Json::Object(all));
            let mut i: usize = 0;
            while i < fields.len()
                invariant
                    i <= fields@.len(),
                    all == fields_of(fields@),
                    doc == Json::Object(all),
                    doc == json_of(*value),
                    first_text(doc, key@) == first_text_in_fields(all, key@, i as int),
                decreases fields@.len() - i,
            {
                let f = fields[i];
                assert(all[i as int] == (f.0@, json_of(*f.1)));
                assert(decreases_to!(doc => doc->Object_0[i as int].1));
                if let Some(s) = find_str(f.1, key) {
                    return Some(s);
                }
                i += 1;
            }
            None
        },
        Node::Array(items) => {
            let ghost all = items_of(items@);
            assert(doc == Json::Array(all));
            let mut i: usize = 0;
            while i < items.len()
                invariant
                    i <= items@.len(),
                    all == items_of(items@),
                    doc == Json::Array(all),
                    doc == json_of(*value),
                    first_text(doc, key@) == first_text_in_items(all, key@, i as int),
                decreases items@.len() - i,
            {
                assert(all[i as int] == json_of(items@[i as int]));
                assert(decreases_to!(doc => doc->Array_0[i as int]));
                if let Some(s) = find_str(&items[i], key) {
                    return Some(s);
                }
                i += 1;
            }
            None
        },
        _ => None,
    }
}

/// Which fields' texts are collected.
pub enum Wanted<'a> {
    /// Those of one name.
    Named(&'a str),
    /// Those that name a working directory.
    Directory,
}

impl<'a> Wanted<'a> {
    pub open spec fn admits(self, key: Seq<char>) -> bool {
        match self {
            Wanted::Named(name) => key == name@,
            Wanted::Directory => ends_with(key, "cwd"@) || key == "repo_root"@,
        }
    }

    fn wants(&self, key: &str) -> (r: bool)
        ensures
            r == self.admits(key@),
    {
        match self {
            Wanted::Named(name) => same(key, name),
            Wanted::Directory => has_suffix(key, "cwd") || same(key, "repo_root"),
        }
    }
}

/// Every text under a wanted field, at any depth, in the order of the walk.
pub open spec fn texts(j: Json, w: Wanted) -> Seq<Seq<char>>
    decreases j, 0int,
{
    match j {
        Json::Object(fields) => texts_in_fields(fields, w, fields.len() as int),
        Json::Array(items) => texts_in_items(items, w, items.len() as int),
        _ => Seq::empty(),
    }
}

/// The text of one field, where it is wanted.
pub open spec fn own_text(field: (Seq<char>, Json), w: Wanted) -> Seq<Seq<char>> {
    match field.1.text() {
        Some(s) => if w.admits(field.0) {
            seq![s]
        } else {
            Seq::empty()
        },
        None => Seq::empty(),
    }
}

pub open spec fn texts_in_fields(fields: Seq<(Seq<char>, Json)>, w: Wanted, n: int) -> Seq<
    Seq<char>,
>
    decreases fields, n,
{
    if n <= 0 || n > fields.len() {
        Seq::empty()
    } else {
        texts_in_fields(fields, w, n - 1) + own_text(fields[n - 1], w) + texts(fields[n - 1].1, w)
    }
}

pub open spec fn texts_in_items(items: Seq<Json>, w: Wanted, n: int) -> Seq<Seq<char>>
    decreases items, n,
{
    if n <= 0 || n > items.len() {
        Seq::empty()
    } else {
        texts_in_items(items, w, n - 1) + texts(items[n - 1], w)
    }
}

/// Collect every text under a wanted field, at any depth.
fn collect(value: &Value, w: &Wanted, out: &mut Vec<String>)
    ensures
        strs(final(out)@) == strs(old(out)@) + texts(json_of(*value), *w),
    decreases json_of(*value),
{
    let ghost doc = json_of(*value);
    let ghost start = strs(out@);
    match node(value) {
        Node::Object(fields) => {
            let ghost all = fields_of(fields@);
            assert(doc == Json::Object(all));
            let mut i: usize = 0;
            while i < fields.len()
                invariant
                    i <= fields@.len(),
                    all == fields_of(fields@),
                    doc == Json::Object(all),
                    doc == json_of(*value),
                    strs(out@) == start + texts_in_fields(all, *w, i as int),
                decreases fields@.len() - i,
            {
                let f = fields[i];
                assert(all[i as int] == (f.0@, json_of(*f.1)));
                assert(decreases_to!(doc => doc->Object_0[i as int].1));
                let ghost before = strs(out@);
                if w.wants(f.0.as_str()) {
                    if let Some(s) = as_str(f.1) {
                        let text = copy(s.as_str());
                        proof {
                            lemma_strs_push(out@, text);
                        }
                        out.push(text);
                    }
                }
                assert(strs(out@) =~= before + own_text(all[i as int], *w));
                collect(f.1, w, out);
                i += 1;
                assert(strs(out@) =~= start + texts_in_fields(all, *w, i as int));
            }
        },
        Node::Array(items) => {
            let ghost all = items_of(items@);
            assert(doc == Json::Array(all));
            let mut i: usize = 0;
            while i < items.len()
                invariant
                    i <= items@.len(),
                    all == items_of(items@),
                    doc == Json::Array(all),
                    doc == json_of(*value),
                    strs(out@) == start + texts_in_items(all, *w, i as int),
                decreases items@.len() - i,
            {
                assert(all[i as int] == json_of(items@[i as int]));
                assert(decreases_to!(doc => doc->Array_0[i as int]));
                collect(&items[i], w, out);
                i += 1;
                assert(strs(out@) =~= start + texts_in_items(all, *w, i as int));
            }
        },
        _ => {},
    }
    assert(strs(out@) =~= start + texts(doc, *w));
}

/// Collect every string value under `key`, at any depth.
pub fn collect_strs(value: &Value, key: &str, out: &mut Vec<String>)
    ensures
        strs(final(out)@) == strs(old(out)@) + texts(json_of(*value), Wanted::Named(key)),
{
    collect(value, &Wanted::Named(key), out);
}

/// Collect every working directory that a context names, at any depth.
pub fn collect_cwds(value: &Value, out: &mut Vec<String>)
    ensures
        strs(final(out)@) == strs(old(out)@) + texts(json_of(*value), Wanted::Directory),
{
    collect(value, &Wanted::Directory, out);
}

// ---- laws ------------------------------------------------------------------------

proof fn lemma_fields_hold(fields: Seq<(Seq<char>, Json)>, w: Wanted, n: int, k: int, s: Seq<char>)
    requires
        0 <= k < n <= fields.len(),
        own_text(fields[k], w).contains(s) || texts(fields[k].1, w).contains(s),
    ensures
        texts_in_fields(fields, w, n).contains(s),
    decreases n,
{
    let rest = texts_in_fields(fields, w, n - 1);
    let own = own_text(fields[n - 1], w);
    let inside = texts(fields[n - 1].1, w);
    let all = rest + own + inside;
    if k < n - 1 {
        lemma_fields_hold(fields, w, n - 1, k, s);
        let i = rest.index_of(s);
        assert(all[i] == s);
    } else if own.contains(s) {
        let i = own.index_of(s);
        assert(all[rest.len() + i] == s);
    } else {
        let i = inside.index_of(s);
        assert(all[rest.len() + own.len() + i] == s);
    }
}

proof fn lemma_items_hold(items: Seq<Json>, w: Wanted, n: int, k: int, s: Seq<char>)
    requires
        0 <= k < n <= items.len(),
        texts(items[k], w).contains(s),
    ensures
        texts_in_items(items, w, n).contains(s),
    decreases n,
{
    let rest = texts_in_items(items, w, n - 1);
    let inside = texts(items[n - 1], w);
    let all = rest + inside;
    if k < n - 1 {
        lemma_items_hold(items, w, n - 1, k, s);
        let i = rest.index_of(s);
        assert(all[i] == s);
    } else {
        let i = inside.index_of(s);
        assert(all[rest.len() + i] == s);
    }
}

proof fn lemma_lookup(fields: Seq<(Seq<char>, Json)>, key: Seq<char>, i: int) -> (k: int)
    requires
        0 <= i,
        lookup(fields, key, i) is Some,
    ensures
        i <= k < fields.len(),
        fields[k].0 == key,
        lookup(fields, key, i) == Some(fields[k].1),
    decreases fields.len() - i,
{
    if fields[i].0 == key {
        i
    } else {
        lemma_lookup(fields, key, i + 1)
    }
}

/// What the search for a name finds is among all that the name collects.
pub proof fn law_the_search_finds_what_is_collected(j: Json, key: &str)
    ensures
        first_text(j, key@) matches Some(s) ==> texts(j, Wanted::Named(key)).contains(s),
    decreases j, 0int,
{
    match j {
        Json::Object(fields) => {
            if let Some(s) = j.text_field(key@) {
                let k = lemma_lookup(fields, key@, 0);
                assert(own_text(fields[k], Wanted::Named(key))[0] == s);
                lemma_fields_hold(fields, Wanted::Named(key), fields.len() as int, k, s);
            } else {
                lemma_search_fields(fields, key, 0);
            }
        },
        Json::Array(items) => {
            lemma_search_items(items, key, 0);
        },
        _ => {},
    }
}

proof fn lemma_search_fields(fields: Seq<(Seq<char>, Json)>, key: &str, i: int)
    requires
        0 <= i,
    ensures
        first_text_in_fields(fields, key@, i) matches Some(s) ==> texts_in_fields(
            fields,
            Wanted::Named(key),
            fields.len() as int,
        ).contains(s),
    decreases fields, fields.len() - i,
{
    if i < fields.len() {
        law_the_search_finds_what_is_collected(fields[i].1, key);
        match first_text(fields[i].1, key@) {
            Some(s) => {
                lemma_fields_hold(fields, Wanted::Named(key), fields.len() as int, i, s);
            },
            None => {
                lemma_search_fields(fields, key, i + 1);
            },
        }
    }
}

proof fn lemma_search_items(items: Seq<Json>, key: &str, i: int)
    requires
        0 <= i,
    ensures
        first_text_in_items(items, key@, i) matches Some(s) ==> texts_in_items(
            items,
            Wanted::Named(key),
            items.len() as int,
        ).contains(s),
    decreases items, items.len() - i,
{
    if i < items.len() {
        law_the_search_finds_what_is_collected(items[i], key);
        match first_text(items[i], key@) {
            Some(s) => {
                lemma_items_hold(items, Wanted::Named(key), items.len() as int, i, s);
            },
            None => {
                lemma_search_items(items, key, i + 1);
            },
        }
    }
}

/// A field is found by its name where no field before it has the same.
pub proof fn law_a_field_is_found_by_its_name(
    before: Seq<(Seq<char>, Json)>,
    key: Seq<char>,
    value: Json,
    behind: Seq<(Seq<char>, Json)>,
    i: int,
)
    requires
        0 <= i <= before.len(),
        forall|k: int| 0 <= k < before.len() ==> (#[trigger] before[k]).0 != key,
    ensures
        lookup(before.push((key, value)) + behind, key, i) == Some(value),
        lookup(before, key, i) is None,
    decreases before.len() - i,
{
    let fields = before.push((key, value)) + behind;
    if i < before.len() {
        assert(fields[i] == before[i]);
        law_a_field_is_found_by_its_name(before, key, value, behind, i + 1);
    } else {
        assert(fields[i] == (key, value));
    }
}

} // verus!
