//! JSON documents as trees, read and written by `serde_json`.
//!
//! The library holds a document as a tree of its own, `JsonValue`, so that
//! its logic can take documents apart and build them. Reading a text and
//! writing one are left to `serde_json`, which has its own tree,
//! `serde_json::Value`. What it reads from a text and what it writes for a
//! tree are known here only by name, `json_parsed` and `json_text`; the way
//! between its tree and the tree of this library is walked here, node by
//! node.

use vstd::prelude::*;

verus! {

/// `serde_json::Error`, handed through as it comes.
#[verifier::external_type_specification]
#[verifier::external_body]
pub struct ExJsonError(serde_json::Error);

/// `serde_json::Number`, kept inside `JsonNumber`.
#[verifier::external_type_specification]
#[verifier::external_body]
pub struct ExJsonNumber(serde_json::Number);

/// `serde_json::Value`, which stands between the text and the tree of this
/// library.
#[verifier::external_type_specification]
#[verifier::external_body]
pub struct ExJsonTree(serde_json::Value);

/// What a JSON number holds.
pub enum NumberView {
    /// An integer from zero up.
    Unsigned(u64),
    /// An integer below zero.
    Negative(i64),
    /// Any other number, by the 64 bits of its binary form.
    Real(u64),
}

/// What a `serde_json::Number` holds: the integer of a number that was made
/// from an integer from zero up, the integer of one below zero, the bits of
/// any other.
pub uninterp spec fn number_view(n: serde_json::Number) -> NumberView;

/// A JSON number, kept as `serde_json` holds it.
#[derive(Debug, PartialEq)]
pub struct JsonNumber {
    raw: serde_json::Number,
}

impl View for JsonNumber {
    type V = NumberView;

    closed spec fn view(&self) -> NumberView {
        number_view(self.raw)
    }
}

/// A JSON document.
#[derive(Debug, PartialEq)]
pub enum JsonValue {
    Null,
    Bool(bool),
    Number(JsonNumber),
    Text(String),
    Array(Vec<JsonValue>),
    Object(Vec<(String, JsonValue)>),
}

/// A JSON document as a mathematical value.
pub enum JsonView {
    Null,
    Bool(bool),
    Number(NumberView),
    Text(Seq<char>),
    Array(Seq<JsonView>),
    Object(Seq<(Seq<char>, JsonView)>),
}

impl View for JsonValue {
    type V = JsonView;

    open spec fn view(&self) -> JsonView
        decreases self,
    {
        match self {
            JsonValue::Null => JsonView::Null,
            JsonValue::Bool(b) => JsonView::Bool(*b),
            JsonValue::Number(n) => JsonView::Number(n@),
            JsonValue::Text(s) => JsonView::Text(s@),
            JsonValue::Array(items) => JsonView::Array(items_view(items@)),
            JsonValue::Object(members) => JsonView::Object(members_view(members@)),
        }
    }
}

/// The items of an array as mathematical values, in their order.
pub open spec fn items_view(items: Seq<JsonValue>) -> Seq<JsonView>
    decreases items,
{
    if items.len() == 0 {
        Seq::empty()
    } else {
        items_view(items.drop_last()).push(items.last()@)
    }
}

/// The members of an object as mathematical values, in their order.
pub open spec fn members_view(members: Seq<(String, JsonValue)>) -> Seq<(Seq<char>, JsonView)>
    decreases members,
{
    if members.len() == 0 {
        Seq::empty()
    } else {
        members_view(members.drop_last()).push((members.last().0@, members.last().1@))
    }
}

/// The view of an array has the views of the items, one for one.
pub proof fn lemma_items_view(items: Seq<JsonValue>)
    ensures
        items_view(items).len() == items.len(),
        forall|i: int| 0 <= i < items.len() ==> (#[trigger] items_view(items)[i]) == items[i]@,
    decreases items.len(),
{
    if items.len() > 0 {
        lemma_items_view(items.drop_last());
        assert(items_view(items) == items_view(items.drop_last()).push(items.last()@));
    } else {
        assert(items_view(items) == Seq::<JsonView>::empty());
    }
}

/// The view of an object has the keys and the views of the values, one for
/// one.
pub proof fn lemma_members_view(members: Seq<(String, JsonValue)>)
    ensures
        members_view(members).len() == members.len(),
        forall|i: int|
            0 <= i < members.len() ==> (#[trigger] members_view(members)[i]) == (
                members[i].0@,
                members[i].1@,
            ),
    decreases members.len(),
{
    if members.len() > 0 {
        lemma_members_view(members.drop_last());
        assert(members_view(members) == members_view(members.drop_last()).push(
            (members.last().0@, members.last().1@),
        ));
    } else {
        assert(members_view(members) == Seq::<(Seq<char>, JsonView)>::empty());
    }
}

/// `serde_json::Number::from` for a `u64`: the number that holds exactly
/// that integer.
#[verifier::external_body]
fn number_from_u64(value: u64) -> (n: serde_json::Number)
    ensures
        number_view(n) == NumberView::Unsigned(value),
{
    serde_json::Number::from(value)
}

/// `clone` of a `serde_json::Number`: the copy holds the number that was
/// copied.
pub assume_specification[ <serde_json::Number as Clone>::clone ](n: &serde_json::Number) -> (r: serde_json::Number)
    ensures
        number_view(r) == number_view(*n),
;

/// `serde_json::Number::as_u64` returns the integer where the number is one
/// from zero up, and nothing for a negative or a fractional number.
pub assume_specification[ serde_json::Number::as_u64 ](n: &serde_json::Number) -> (r: Option<u64>)
    ensures
        r == (match number_view(*n) {
            NumberView::Unsigned(v) => Some(v),
            _ => None::<u64>,
        }),
;

/// Whether `i` is the place of the first member under `key`.
pub open spec fn is_first_index(members: Seq<(Seq<char>, JsonView)>, key: Seq<char>, i: int) -> bool {
    &&& 0 <= i < members.len()
    &&& members[i].0 == key
    &&& forall|j: int| 0 <= j < i ==> (#[trigger] members[j]).0 != key
}

/// Whether some member stands under `key`.
pub open spec fn has_key(members: Seq<(Seq<char>, JsonView)>, key: Seq<char>) -> bool {
    exists|i: int| 0 <= i < members.len() && (#[trigger] members[i]).0 == key
}

/// The place of the first member under `key`, where there is one.
pub open spec fn first_index(members: Seq<(Seq<char>, JsonView)>, key: Seq<char>) -> int {
    choose|i: int| is_first_index(members, key, i)
}

/// The value of the first member under `key`, where there is one.
pub open spec fn lookup(members: Seq<(Seq<char>, JsonView)>, key: Seq<char>) -> Option<JsonView> {
    if has_key(members, key) {
        Some(members[first_index(members, key)].1)
    } else {
        None
    }
}

/// There is at most one first place of a key, and it is the one that
/// `first_index` names.
pub proof fn lemma_first_index(members: Seq<(Seq<char>, JsonView)>, key: Seq<char>, i: int)
    requires
        is_first_index(members, key, i),
    ensures
        has_key(members, key),
        first_index(members, key) == i,
        lookup(members, key) == Some(members[i].1),
{
    let j = first_index(members, key);
    assert(is_first_index(members, key, j));
    if j < i {
        assert(members[j].0 != key);
    }
    if i < j {
        assert(members[i].0 != key);
    }
}

/// Where a key occurs at all, it has a first place.
pub proof fn lemma_has_key(members: Seq<(Seq<char>, JsonView)>, key: Seq<char>)
    requires
        has_key(members, key),
    ensures
        is_first_index(members, key, first_index(members, key)),
{
    let k = choose|i: int| 0 <= i < members.len() && (#[trigger] members[i]).0 == key;
    lemma_first_before(members, key, k);
}

/// Where a key occurs at `at`, its first place is at `at` or before it.
proof fn lemma_first_before(members: Seq<(Seq<char>, JsonView)>, key: Seq<char>, at: int)
    requires
        0 <= at < members.len(),
        members[at].0 == key,
    ensures
        exists|i: int| is_first_index(members, key, i),
    decreases at,
{
    if exists|j: int| 0 <= j < at && (#[trigger] members[j]).0 == key {
        let j = choose|j: int| 0 <= j < at && (#[trigger] members[j]).0 == key;
        lemma_first_before(members, key, j);
    } else {
        assert(is_first_index(members, key, at));
    }
}

/// The place of the first member of `members` under `key`.
pub fn find_member(members: &Vec<(String, JsonValue)>, key: &str) -> (r: Option<usize>)
    ensures
        match r {
            Some(i) => is_first_index(members_view(members@), key@, i as int),
            None => !has_key(members_view(members@), key@),
        },
{
    let wanted = key.to_owned();
    proof {
        lemma_members_view(members@);
    }
    let mut i: usize = 0;
    while i < members.len()
        invariant
            i <= members@.len(),
            wanted@ == key@,
            members_view(members@).len() == members@.len(),
            forall|j: int|
                0 <= j < members@.len() ==> (#[trigger] members_view(members@)[j]) == (
                    members@[j].0@,
                    members@[j].1@,
                ),
            forall|j: int| 0 <= j < i ==> (#[trigger] members_view(members@)[j]).0 != key@,
        decreases members@.len() - i,
    {
        if members[i].0 == wanted {
            return Some(i);
        }
        i += 1;
    }
    None
}

impl Clone for JsonNumber {
    fn clone(&self) -> (r: JsonNumber)
        ensures
            r@ == self@,
    {
        JsonNumber { raw: self.raw.clone() }
    }
}

impl Clone for JsonValue {
    fn clone(&self) -> (r: JsonValue)
        ensures
            r@ == self@,
        decreases self,
    {
        match self {
            JsonValue::Null => JsonValue::Null,
            JsonValue::Bool(b) => JsonValue::Bool(*b),
            JsonValue::Number(n) => JsonValue::Number(n.clone()),
            JsonValue::Text(s) => JsonValue::Text(s.clone()),
            JsonValue::Array(items) => {
                let mut out: Vec<JsonValue> = Vec::new();
                let mut i: usize = 0;
                while i < items.len()
                    invariant
                        i <= items@.len(),
                        out@.len() == i,
                        *self == JsonValue::Array(*items),
                        forall|j: int| 0 <= j < i ==> (#[trigger] out@[j])@ == items@[j]@,
                    decreases items@.len() - i,
                {
                    proof {
                        vstd::std_specs::vec::axiom_vec_index_decreases(*items, i as int);
                        assert(self->Array_0 == *items);
                        assert(decreases_to!(*self => self->Array_0));
                    }
                    let item = items[i].clone();
                    out.push(item);
                    i += 1;
                }
                let r = JsonValue::Array(out);
                proof {
                    lemma_items_view(out@);
                    lemma_items_view(items@);
                    assert(items_view(out@) =~= items_view(items@));
                }
                r
            },
            JsonValue::Object(members) => {
                let mut out: Vec<(String, JsonValue)> = Vec::new();
                let mut i: usize = 0;
                while i < members.len()
                    invariant
                        i <= members@.len(),
                        out@.len() == i,
                        *self == JsonValue::Object(*members),
                        forall|j: int|
                            0 <= j < i ==> (#[trigger] out@[j]).0@ == members@[j].0@ && out@[j].1@
                                == members@[j].1@,
                    decreases members@.len() - i,
                {
                    proof {
                        vstd::std_specs::vec::axiom_vec_index_decreases(*members, i as int);
                        assert(self->Object_0 == *members);
                        assert(decreases_to!(*self => self->Object_0));
                    }
                    let key = members[i].0.clone();
                    let value = members[i].1.clone();
                    out.push((key, value));
                    i += 1;
                }
                let r = JsonValue::Object(out);
                proof {
                    lemma_members_view(out@);
                    lemma_members_view(members@);
                    assert(members_view(out@) =~= members_view(members@));
                }
                r
            },
        }
    }
}

/// The tree that `serde_json` reads from a text, where the text is JSON.
pub uninterp spec fn json_parsed(text: Seq<u8>) -> Option<JsonView>;

/// The tree that a `serde_json::Value` holds. The members of an object
/// stand in the order in which `serde_json` keeps them.
pub uninterp spec fn value_view(v: serde_json::Value) -> JsonView;

/// The compact text that `serde_json` writes for a tree.
pub uninterp spec fn json_text(doc: JsonView) -> Seq<char>;

/// The members `entries` with `value` under `key`: in the place of the
/// first member under that key where there is one, at the end where there
/// is none.
pub open spec fn with_entry(
    entries: Seq<(Seq<char>, JsonView)>,
    key: Seq<char>,
    value: JsonView,
) -> Seq<(Seq<char>, JsonView)> {
    if has_key(entries, key) {
        entries.update(first_index(entries, key), (key, value))
    } else {
        entries.push((key, value))
    }
}

/// The members `entries` after each member of `updates` was put in, one
/// after the other: a key that was there has the new value, a key that was
/// not is added, and every other member stays.
pub open spec fn merged(
    entries: Seq<(Seq<char>, JsonView)>,
    updates: Seq<(Seq<char>, JsonView)>,
) -> Seq<(Seq<char>, JsonView)>
    decreases updates.len(),
{
    if updates.len() == 0 {
        entries
    } else {
        merged(with_entry(entries, updates.first().0, updates.first().1), updates.drop_first())
    }
}

/// One node of a `serde_json::Value`, with what hangs below it.
enum ValueParts<'a> {
    Null,
    Bool(bool),
    Number(&'a serde_json::Number),
    Text(&'a String),
    Array(&'a Vec<serde_json::Value>),
    Object(Vec<(&'a String, &'a serde_json::Value)>),
}

/// What a node for a `serde_json::Value` is built from.
enum NewValue {
    Null,
    Bool(bool),
    Number(serde_json::Number),
    Text(String),
    Array(Vec<serde_json::Value>),
    Object(Vec<(String, serde_json::Value)>),
}

/// The trees that a list of `serde_json::Value`s holds.
spec fn values_view(items: Seq<serde_json::Value>) -> Seq<JsonView> {
    Seq::new(items.len(), |i: int| value_view(items[i]))
}

/// The keys and trees of a list of borrowed members.
spec fn borrowed_members_view(members: Seq<(&String, &serde_json::Value)>) -> Seq<(Seq<char>, JsonView)> {
    Seq::new(members.len(), |i: int| (members[i].0@, value_view(*members[i].1)))
}

/// The keys and trees of a list of members.
spec fn owned_members_view(members: Seq<(String, serde_json::Value)>) -> Seq<(Seq<char>, JsonView)> {
    Seq::new(members.len(), |i: int| (members[i].0@, value_view(members[i].1)))
}

/// The tree that the parts of a node make up.
spec fn parts_view(parts: ValueParts) -> JsonView {
    match parts {
        ValueParts::Null => JsonView::Null,
        ValueParts::Bool(b) => JsonView::Bool(b),
        ValueParts::Number(n) => JsonView::Number(number_view(*n)),
        ValueParts::Text(s) => JsonView::Text(s@),
        ValueParts::Array(items) => JsonView::Array(values_view(items@)),
        ValueParts::Object(members) => JsonView::Object(borrowed_members_view(members@)),
    }
}

/// The tree of the node that is built from `parts`. An object takes its
/// members one after the other, so that of members with the same key the
/// first keeps its place and the last its value.
spec fn built_view(parts: NewValue) -> JsonView {
    match parts {
        NewValue::Null => JsonView::Null,
        NewValue::Bool(b) => JsonView::Bool(b),
        NewValue::Number(n) => JsonView::Number(number_view(n)),
        NewValue::Text(s) => JsonView::Text(s@),
        NewValue::Array(items) => JsonView::Array(values_view(items@)),
        NewValue::Object(members) => JsonView::Object(
            merged(Seq::empty(), owned_members_view(members@)),
        ),
    }
}

/// `serde_json::from_slice` into a `serde_json::Value`: the tree that the
/// text spells, or an error where the text is not JSON. What it returns
/// depends on the text alone.
#[verifier::external_body]
fn json_from_slice(text: &[u8]) -> (r: Result<serde_json::Value, serde_json::Error>)
    ensures
        match r {
            Ok(v) => json_parsed(text@) == Some(value_view(v)),
            Err(_) => json_parsed(text@) is None,
        },
{
    serde_json::from_slice::<serde_json::Value>(text)
}

/// `serde_json::to_string` of a `serde_json::Value`: the compact text of
/// the tree. It depends on the tree alone, and writing a `Value` cannot
/// fail.
#[verifier::external_body]
fn json_to_string(v: &serde_json::Value) -> (r: String)
    ensures
        r@ == json_text(value_view(*v)),
{
    serde_json::to_string(v).unwrap_or_default()
}

/// Takes a `serde_json::Value` apart, one level deep: the variant, and what
/// it holds. The members of an object come in the order of
/// `serde_json::Map::iter`, which is the order in which the map keeps them.
#[verifier::external_body]
fn json_parts<'a>(v: &'a serde_json::Value) -> (r: ValueParts<'a>)
    ensures
        parts_view(r) == value_view(*v),
{
    match v {
        serde_json::Value::Null => ValueParts::Null,
        serde_json::Value::Bool(b) => ValueParts::Bool(*b),
        serde_json::Value::Number(n) => ValueParts::Number(n),
        serde_json::Value::String(s) => ValueParts::Text(s),
        serde_json::Value::Array(a) => ValueParts::Array(a),
        serde_json::Value::Object(m) => ValueParts::Object(m.iter().collect()),
    }
}

/// Builds a `serde_json::Value`, one level deep: the variant around what it
/// holds. The members of an object are collected into a
/// `serde_json::Map`, which inserts them one after the other: a key that is
/// there keeps its place and gets the new value, a new key goes to the end.
#[verifier::external_body]
fn json_node(parts: NewValue) -> (r: serde_json::Value)
    ensures
        value_view(r) == built_view(parts),
{
    match parts {
        NewValue::Null => serde_json::Value::Null,
        NewValue::Bool(b) => serde_json::Value::Bool(b),
        NewValue::Number(n) => serde_json::Value::Number(n),
        NewValue::Text(s) => serde_json::Value::String(s),
        NewValue::Array(a) => serde_json::Value::Array(a),
        NewValue::Object(m) => serde_json::Value::Object(m.into_iter().collect()),
    }
}

/// A document as `serde_json` holds it: in every object, of members with
/// the same key the first keeps its place and the last its value.
pub open spec fn canonical(doc: JsonView) -> JsonView
    decreases doc,
{
    match doc {
        JsonView::Array(items) => JsonView::Array(canonical_items(items)),
        JsonView::Object(members) => JsonView::Object(
            merged(Seq::empty(), canonical_members(members)),
        ),
        _ => doc,
    }
}

/// The items of an array, each as `serde_json` holds it.
pub open spec fn canonical_items(items: Seq<JsonView>) -> Seq<JsonView>
    decreases items,
{
    if items.len() == 0 {
        Seq::empty()
    } else {
        canonical_items(items.drop_last()).push(canonical(items.last()))
    }
}

/// The members of an object, the value of each as `serde_json` holds it.
pub open spec fn canonical_members(members: Seq<(Seq<char>, JsonView)>) -> Seq<(Seq<char>, JsonView)>
    decreases members,
{
    if members.len() == 0 {
        Seq::empty()
    } else {
        canonical_members(members.drop_last()).push(
            (members.last().0, canonical(members.last().1)),
        )
    }
}

/// The canonical items of an array stand for its items, one for one.
pub proof fn lemma_canonical_items(items: Seq<JsonView>)
    ensures
        canonical_items(items).len() == items.len(),
        forall|i: int|
            0 <= i < items.len() ==> (#[trigger] canonical_items(items)[i]) == canonical(items[i]),
    decreases items.len(),
{
    if items.len() > 0 {
        lemma_canonical_items(items.drop_last());
        assert(canonical_items(items) == canonical_items(items.drop_last()).push(
            canonical(items.last()),
        ));
    } else {
        assert(canonical_items(items) == Seq::<JsonView>::empty());
    }
}

/// The canonical members of an object stand for its members, one for one.
pub proof fn lemma_canonical_members(members: Seq<(Seq<char>, JsonView)>)
    ensures
        canonical_members(members).len() == members.len(),
        forall|i: int|
            0 <= i < members.len() ==> (#[trigger] canonical_members(members)[i]) == (
                members[i].0,
                canonical(members[i].1),
            ),
    decreases members.len(),
{
    if members.len() > 0 {
        lemma_canonical_members(members.drop_last());
        assert(canonical_members(members) == canonical_members(members.drop_last()).push(
            (members.last().0, canonical(members.last().1)),
        ));
    } else {
        assert(canonical_members(members) == Seq::<(Seq<char>, JsonView)>::empty());
    }
}

/// Whether no key stands twice in a list of members.
pub open spec fn has_distinct_keys(entries: Seq<(Seq<char>, JsonView)>) -> bool {
    forall|i: int, j: int|
        0 <= i < j < entries.len() ==> (#[trigger] entries[i]).0 != (#[trigger] entries[j]).0
}

/// Whether no object of a document, at any depth, has a key twice.
pub open spec fn is_canonical(doc: JsonView) -> bool
    decreases doc,
{
    match doc {
        JsonView::Array(items) => forall|i: int|
            0 <= i < items.len() ==> is_canonical(#[trigger] items[i]),
        JsonView::Object(members) => has_distinct_keys(members) && forall|i: int|
            0 <= i < members.len() ==> is_canonical((#[trigger] members[i]).1),
        _ => true,
    }
}

/// Members with distinct keys that are put in one after the other end up
/// in the order in which they came.
pub proof fn lemma_merged_distinct(
    entries: Seq<(Seq<char>, JsonView)>,
    updates: Seq<(Seq<char>, JsonView)>,
)
    requires
        has_distinct_keys(entries + updates),
    ensures
        merged(entries, updates) == entries + updates,
    decreases updates.len(),
{
    let all = entries + updates;
    if updates.len() == 0 {
        assert(all =~= entries);
    } else {
        let first = updates.first();
        if has_key(entries, first.0) {
            let i = choose|i: int| 0 <= i < entries.len() && (#[trigger] entries[i]).0 == first.0;
            assert(all[i] == entries[i]);
            assert(all[entries.len() as int] == first);
        }
        let next = entries.push(first);
        assert(next + updates.drop_first() =~= all);
        lemma_merged_distinct(next, updates.drop_first());
    }
}

/// A document in which no object has a key twice is held by `serde_json`
/// as it is.
pub proof fn lemma_canonical_fixpoint(doc: JsonView)
    requires
        is_canonical(doc),
    ensures
        canonical(doc) == doc,
    decreases doc,
{
    match doc {
        JsonView::Array(items) => {
            lemma_canonical_items(items);
            assert forall|i: int| 0 <= i < items.len() implies canonical(items[i]) == items[i] by {
                assert(is_canonical(items[i]));
                lemma_canonical_fixpoint(items[i]);
            }
            assert(canonical_items(items) =~= items);
        },
        JsonView::Object(members) => {
            lemma_canonical_members(members);
            assert forall|i: int| 0 <= i < members.len() implies canonical(members[i].1)
                == members[i].1 by {
                assert(is_canonical(members[i].1));
                lemma_canonical_fixpoint(members[i].1);
            }
            assert(canonical_members(members) =~= members);
            assert(Seq::<(Seq<char>, JsonView)>::empty() + members =~= members);
            lemma_merged_distinct(Seq::empty(), members);
        },
        _ => {},
    }
}

/// The tree of this library for a `serde_json::Value`.
fn import(v: &serde_json::Value) -> (r: JsonValue)
    ensures
        r@ == value_view(*v),
    decreases value_view(*v),
{
    let ghost whole = value_view(*v);
    match json_parts(v) {
        ValueParts::Null => JsonValue::Null,
        ValueParts::Bool(b) => JsonValue::Bool(b),
        ValueParts::Number(n) => JsonValue::Number(JsonNumber { raw: n.clone() }),
        ValueParts::Text(s) => JsonValue::Text(s.clone()),
        ValueParts::Array(items) => {
            let ghost views = values_view(items@);
            let mut out: Vec<JsonValue> = Vec::new();
            let mut i: usize = 0;
            while i < items.len()
                invariant
                    i <= items@.len(),
                    out@.len() == i,
                    whole == value_view(*v),
                    whole == JsonView::Array(views),
                    views == values_view(items@),
                    forall|j: int| 0 <= j < i ==> (#[trigger] out@[j])@ == views[j],
                decreases items@.len() - i,
            {
                proof {
                    assert(views[i as int] == value_view(items@[i as int]));
                    vstd::seq::axiom_seq_index_decreases(views, i as int);
                    assert(whole->Array_0 == views);
                    assert(decreases_to!(whole => whole->Array_0));
                }
                let item = import(&items[i]);
                out.push(item);
                i += 1;
            }
            proof {
                lemma_items_view(out@);
                assert(items_view(out@) =~= views);
            }
            JsonValue::Array(out)
        },
        ValueParts::Object(members) => {
            let ghost views = borrowed_members_view(members@);
            let mut out: Vec<(String, JsonValue)> = Vec::new();
            let mut i: usize = 0;
            while i < members.len()
                invariant
                    i <= members@.len(),
                    out@.len() == i,
                    whole == value_view(*v),
                    whole == JsonView::Object(views),
                    views == borrowed_members_view(members@),
                    forall|j: int|
                        0 <= j < i ==> ((#[trigger] out@[j]).0@, out@[j].1@) == views[j],
                decreases members@.len() - i,
            {
                proof {
                    assert(views[i as int] == (
                        members@[i as int].0@,
                        value_view(*members@[i as int].1),
                    ));
                    vstd::seq::axiom_seq_index_decreases(views, i as int);
                    assert(whole->Object_0 == views);
                    assert(decreases_to!(whole => whole->Object_0));
                    assert(decreases_to!(views[i as int] => views[i as int].1));
                }
                let key = members[i].0.clone();
                let value = import(members[i].1);
                out.push((key, value));
                i += 1;
            }
            proof {
                lemma_members_view(out@);
                assert(members_view(out@) =~= views);
            }
            JsonValue::Object(out)
        },
    }
}

/// The `serde_json::Value` for a tree of this library.
fn export(doc: &JsonValue) -> (r: serde_json::Value)
    ensures
        value_view(r) == canonical(doc@),
    decreases doc,
{
    match doc {
        JsonValue::Null => json_node(NewValue::Null),
        JsonValue::Bool(b) => json_node(NewValue::Bool(*b)),
        JsonValue::Number(n) => json_node(NewValue::Number(n.raw.clone())),
        JsonValue::Text(s) => json_node(NewValue::Text(s.clone())),
        JsonValue::Array(items) => {
            let ghost views = items_view(items@);
            proof {
                lemma_items_view(items@);
                lemma_canonical_items(views);
            }
            let mut out: Vec<serde_json::Value> = Vec::new();
            let mut i: usize = 0;
            while i < items.len()
                invariant
                    i <= items@.len(),
                    out@.len() == i,
                    *doc == JsonValue::Array(*items),
                    forall|j: int| 0 <= j < i ==> value_view(#[trigger] out@[j]) == canonical(items@[j]@),
                decreases items@.len() - i,
            {
                proof {
                    vstd::std_specs::vec::axiom_vec_index_decreases(*items, i as int);
                    assert(doc->Array_0 == *items);
                    assert(decreases_to!(*doc => doc->Array_0));
                }
                let item = export(&items[i]);
                out.push(item);
                i += 1;
            }
            proof {
                assert(values_view(out@) =~= canonical_items(views));
            }
            json_node(NewValue::Array(out))
        },
        JsonValue::Object(members) => {
            let ghost views = members_view(members@);
            proof {
                lemma_members_view(members@);
                lemma_canonical_members(views);
            }
            let mut out: Vec<(String, serde_json::Value)> = Vec::new();
            let mut i: usize = 0;
            while i < members.len()
                invariant
                    i <= members@.len(),
                    out@.len() == i,
                    *doc == JsonValue::Object(*members),
                    forall|j: int|
                        0 <= j < i ==> (#[trigger] out@[j]).0@ == members@[j].0@ && value_view(
                            out@[j].1,
                        ) == canonical(members@[j].1@),
                decreases members@.len() - i,
            {
                proof {
                    vstd::std_specs::vec::axiom_vec_index_decreases(*members, i as int);
                    assert(doc->Object_0 == *members);
                    assert(decreases_to!(*doc => doc->Object_0));
                }
                let key = members[i].0.clone();
                let value = export(&members[i].1);
                out.push((key, value));
                i += 1;
            }
            proof {
                assert(owned_members_view(out@) =~= canonical_members(views));
            }
            json_node(NewValue::Object(out))
        },
    }
}

/// Reads a JSON text into a tree.
pub fn parse_json(text: &[u8]) -> (r: Option<JsonValue>)
    ensures
        match r {
            Some(doc) => json_parsed(text@) == Some(doc@),
            None => json_parsed(text@) is None,
        },
{
    match json_from_slice(text) {
        Ok(v) => Some(import(&v)),
        Err(_) => None,
    }
}

/// Writes a tree as compact JSON text. The text is that of the document as
/// `serde_json` holds it.
pub fn write_json(doc: &JsonValue) -> (r: String)
    ensures
        r@ == json_text(canonical(doc@)),
{
    json_to_string(&export(doc))
}

impl JsonNumber {
    /// The JSON number `value`.
    pub fn from_u64(value: u64) -> (n: JsonNumber)
        ensures
            n@ == NumberView::Unsigned(value),
    {
        JsonNumber { raw: number_from_u64(value) }
    }

    /// The number as an integer from zero up, where it is one.
    pub fn as_u64(&self) -> (r: Option<u64>)
        ensures
            r == (match self@ {
                NumberView::Unsigned(v) => Some(v),
                _ => None::<u64>,
            }),
    {
        self.raw.as_u64()
    }
}

} // verus!
