//! JSON objects by their fields, some of which may be left out.
use vstd::prelude::*;
use vstd::string::*;

use crate::json::{content, contents, entry_contents, entry_keys, is_plain, json_pretty, node, reads_as, value, write_json, JsonView, Node, MAX_DEPTH};
use crate::text::{decimal, push_decimal};

verus! {

/// Entries of an object.
pub type Entries = Seq<(Seq<char>, JsonView)>;

/// The value under a key.
pub open spec fn lookup(entries: Entries, key: Seq<char>) -> Option<JsonView>
    decreases entries.len(),
{
    if entries.len() == 0 {
        None
    } else if entries.last().0 == key {
        Some(entries.last().1)
    } else {
        lookup(entries.drop_last(), key)
    }
}

/// Fields of an object, some of them without a value.
pub type Fields = Seq<(Seq<char>, Option<JsonView>)>;

/// The entries for fields: those without a value are left out.
pub open spec fn present(fields: Fields) -> Entries
    decreases fields.len(),
{
    if fields.len() == 0 {
        Seq::empty()
    } else {
        match fields.last().1 {
            Some(j) => present(fields.drop_last()).push((fields.last().0, j)),
            None => present(fields.drop_last()),
        }
    }
}

/// Whether no two fields have the same name.
pub open spec fn distinct(fields: Fields) -> bool {
    forall|i: int, j: int|
        0 <= i < j < fields.len() ==> (#[trigger] fields[i]).0 != (#[trigger] fields[j]).0
}

/// Every entry comes from a field.
pub(crate) proof fn lemma_present_from(fields: Fields, i: int) -> (k: int)
    requires
        0 <= i < present(fields).len(),
    ensures
        0 <= k < fields.len(),
        fields[k] == (present(fields)[i].0, Some(present(fields)[i].1)),
    decreases fields.len(),
{
    let front = present(fields.drop_last());
    if i < front.len() {
        let k = lemma_present_from(fields.drop_last(), i);
        assert(present(fields)[i] == front[i]);
        k
    } else {
        fields.len() - 1
    }
}

/// Every name occurs once in the entries.
pub(crate) proof fn lemma_present_keys(fields: Fields)
    requires
        distinct(fields),
    ensures
        entry_keys(present(fields)).no_duplicates(),
    decreases fields.len(),
{
    if fields.len() > 0 {
        let front = fields.drop_last();
        lemma_present_keys(front);
        if fields.last().1 is Some {
            let before = entry_keys(present(front));
            let keys = entry_keys(present(fields));
            assert(keys =~= before.push(fields.last().0));
            assert forall|i: int, j: int|
                0 <= i < keys.len() && 0 <= j < keys.len() && i != j implies keys[i] != keys[j] by {
                if i == before.len() {
                    let k = lemma_present_from(front, j);
                    assert(front[k] == fields[k]);
                } else if j == before.len() {
                    let k = lemma_present_from(front, i);
                    assert(front[k] == fields[k]);
                } else {
                    assert(before[i] != before[j]);
                }
            }
        }
    }
}

/// A name that no field has is not found.
pub(crate) proof fn lemma_present_absent(fields: Fields, key: Seq<char>)
    requires
        forall|i: int| 0 <= i < fields.len() ==> (#[trigger] fields[i]).0 != key,
    ensures
        lookup(present(fields), key) is None,
    decreases fields.len(),
{
    if fields.len() > 0 {
        let front = fields.drop_last();
        lemma_present_absent(front, key);
        assert(fields[fields.len() - 1].0 != key);
        if fields.last().1 is Some {
            assert(present(fields).drop_last() =~= present(front));
        }
    }
}

/// What is found under the name of a field is its value.
pub(crate) proof fn lemma_present_lookup(fields: Fields, i: int)
    requires
        distinct(fields),
        0 <= i < fields.len(),
    ensures
        lookup(present(fields), fields[i].0) == fields[i].1,
    decreases fields.len(),
{
    let front = fields.drop_last();
    let last = fields[fields.len() - 1];
    if last.1 is Some {
        assert(present(fields).drop_last() =~= present(front));
    }
    if i < fields.len() - 1 {
        assert(front[i] == fields[i]);
        lemma_present_lookup(front, i);
    } else {
        lemma_present_absent(front, last.0);
    }
}

/// A list of plain values is plain.
pub(crate) proof fn lemma_list_plain(items: Seq<JsonView>, depth: nat)
    requires
        forall|i: int| 0 <= i < items.len() ==> is_plain(#[trigger] items[i], depth),
    ensures
        is_plain(JsonView::List(items), depth + 1),
{
}

/// The fields that parts stand for.
pub open spec fn part_fields(parts: Seq<(&'static str, Option<serde_json::Value>)>) -> Fields {
    parts.map_values(
        |p: (&'static str, Option<serde_json::Value>)|
            (
                p.0@,
                match p.1 {
                    Some(v) => Some(content(v)),
                    None => None,
                },
            ),
    )
}

pub(crate) fn text_value(text: &str) -> (r: Option<serde_json::Value>)
    ensures
        r matches Some(v) && content(v) == JsonView::Text(text@),
{
    Some(value(Node::Text(text.to_owned())))
}

pub(crate) fn number_value(n: u64) -> (r: Option<serde_json::Value>)
    ensures
        r matches Some(v) && content(v) == JsonView::Unsigned(n),
{
    Some(value(Node::Unsigned(n)))
}

pub(crate) fn flag_value(b: Option<bool>) -> (r: Option<serde_json::Value>)
    ensures
        match b {
            Some(b) => r matches Some(v) && content(v) == JsonView::Bool(b),
            None => r is None,
        },
{
    match b {
        Some(b) => Some(value(Node::Bool(b))),
        None => None,
    }
}

/// The entries for the parts that have a value.
pub(crate) fn entries_of(parts: Vec<(&'static str, Option<serde_json::Value>)>) -> (r: Vec<
    (String, serde_json::Value),
>)
    ensures
        entry_contents(r@) == present(part_fields(parts@)),
{
    let ghost fields = part_fields(parts@);
    let mut entries: Vec<(String, serde_json::Value)> = Vec::new();
    assert(fields.take(0) =~= Seq::empty());
    assert(entry_contents(entries@) =~= Seq::empty());
    for part in it: parts
        invariant
            it.seq() == parts@,
            fields == part_fields(parts@),
            entry_contents(entries@) == present(fields.take(it.index() as int)),
    {
        let ghost k = it.index() as int;
        let ghost head = fields.take(k + 1);
        let ghost before = entry_contents(entries@);
        proof {
            assert(head.drop_last() =~= fields.take(k));
            assert(head.last() == fields[k]);
        }
        let (key, item) = part;
        if let Some(v) = item {
            let ghost added = (key@, content(v));
            entries.push((key.to_owned(), v));
            assert(entry_contents(entries@) =~= before.push(added));
        }
    }
    assert(fields.take(fields.len() as int) =~= fields);
    entries
}

/// A number that may be missing, as JSON.
pub open spec fn number_json(n: Option<u64>) -> Option<JsonView> {
    match n {
        Some(n) => Some(JsonView::Unsigned(n)),
        None => None,
    }
}

/// A truth value that may be missing, as JSON.
pub open spec fn flag_json(b: Option<bool>) -> Option<JsonView> {
    match b {
        Some(b) => Some(JsonView::Bool(b)),
        None => None,
    }
}

/// The entries that a list of values stands for, the names given in order: as many
/// as there are both names and values.
pub open spec fn listed(names: Seq<Seq<char>>, items: Seq<JsonView>) -> Entries {
    Seq::new(
        if names.len() < items.len() {
            names.len()
        } else {
            items.len()
        },
        |i: int| (names[i], items[i]),
    )
}

/// What stands under a key is found.
pub(crate) proof fn lemma_lookup_there(entries: Entries, i: int)
    requires
        0 <= i < entries.len(),
    ensures
        lookup(entries, entries[i].0) is Some,
    decreases entries.len(),
{
    if i < entries.len() - 1 {
        assert(entries.drop_last()[i] == entries[i]);
        lemma_lookup_there(entries.drop_last(), i);
    }
}

/// The names of a list.
pub open spec fn name_texts(names: Seq<&'static str>) -> Seq<Seq<char>> {
    names.map_values(|s: &'static str| s@)
}

/// Takes a list of values apart, the names given in order.
pub(crate) fn list_entries(names: &Vec<&'static str>, values: Vec<serde_json::Value>) -> (r: Vec<
    (String, Node),
>)
    ensures
        r@.map_values(|e: (String, Node)| (e.0@, e.1@)) == listed(
            name_texts(names@),
            contents(values@),
        ),
{
    let ghost all = listed(name_texts(names@), contents(values@));
    let mut out: Vec<(String, Node)> = Vec::new();
    let mut i: usize = 0;
    assert(out@.map_values(|e: (String, Node)| (e.0@, e.1@)) =~= all.take(0));
    for inner in it: values
        invariant
            it.seq() == values@,
            all == listed(name_texts(names@), contents(values@)),
            i <= names@.len(),
            i == (if it.index() < names@.len() {
                it.index() as int
            } else {
                names@.len() as int
            }),
            out@.map_values(|e: (String, Node)| (e.0@, e.1@)) == all.take(i as int),
    {
        let ghost k = it.index() as int;
        let ghost before = out@.map_values(|e: (String, Node)| (e.0@, e.1@));
        assert(contents(values@)[k] == content(inner));
        if i < names.len() {
            let item = (names[i].to_owned(), node(inner));
            let ghost added = (item.0@, item.1@);
            assert(added == all[i as int]);
            out.push(item);
            i += 1;
            assert(out@.map_values(|e: (String, Node)| (e.0@, e.1@)) =~= before.push(added));
            assert(all.take(i as int) =~= before.push(added));
        }
    }
    assert(all.take(all.len() as int) =~= all);
    out
}

/// Why a list of the wrong length is refused.
pub open spec fn invalid_length(n: nat, expected: Seq<char>) -> Seq<char> {
    "invalid length "@ + decimal(n) + ", expected "@ + expected
}

pub(crate) fn length_error(n: usize, expected: &str) -> (r: String)
    ensures
        r@ == invalid_length(n as nat, expected@),
{
    let mut out = String::new();
    out.append("invalid length ");
    push_decimal(&mut out, n as u64);
    out.append(", expected ");
    out.append(expected);
    assert(out@ =~= invalid_length(n as nat, expected@));
    out
}

/// An object of the fields that have a value.
pub open spec fn object(fields: Fields) -> JsonView {
    JsonView::Object(present(fields))
}

/// An object of plain values is plain.
pub(crate) proof fn lemma_object_plain(fields: Fields, depth: nat)
    requires
        forall|i: int|
            0 <= i < fields.len() ==> ((#[trigger] fields[i]).1 matches Some(j) ==> is_plain(
                j,
                depth,
            )),
    ensures
        is_plain(object(fields), depth + 1),
{
    let entries = present(fields);
    assert forall|i: int| 0 <= i < entries.len() implies is_plain((#[trigger] entries[i]).1, depth) by {
        let k = lemma_present_from(fields, i);
    }
}

/// Puts an object together from its parts.
pub(crate) fn object_of(parts: Vec<(&'static str, Option<serde_json::Value>)>) -> (r: serde_json::Value)
    requires
        distinct(part_fields(parts@)),
    ensures
        content(r) == object(part_fields(parts@)),
{
    proof {
        lemma_present_keys(part_fields(parts@));
    }
    value(Node::Object(entries_of(parts)))
}

/// Writes an object, put together from its parts, as a JSON document. It is read
/// back, as long as its values are plain.
pub(crate) fn write_object(parts: Vec<(&'static str, Option<serde_json::Value>)>) -> (r: Vec<u8>)
    requires
        distinct(part_fields(parts@)),
    ensures
        r@ == json_pretty(object(part_fields(parts@))).push(10),
        is_plain(object(part_fields(parts@)), MAX_DEPTH as nat) ==> reads_as(
            r@,
            object(part_fields(parts@)),
        ),
{
    proof {
        lemma_present_keys(part_fields(parts@));
    }
    write_json(Node::Object(entries_of(parts)))
}

} // verus!
