//! The state file's content: JSON, one object per recorded mount.
use vstd::prelude::*;
use vstd::string::*;

use crate::config::{debug_escaped, escape_debug};
use crate::identity::{DevIno, MountIdentity};
use crate::json::{entry_contents, entry_keys, invalid_type, invalid_value, is_plain, json_pretty, json_read, node, read_json, type_error, value, value_error, write_json, JsonView, Node, MAX_DEPTH};
use crate::name::{check_text, parse_group, GroupId, GroupIdView, Name, NameError};
use crate::object::{distinct, flag_json, flag_value, invalid_length, length_error, lemma_list_plain, lemma_lookup_there, lemma_object_plain, lemma_present_from, lemma_present_lookup, list_entries, listed, lookup, name_texts, number_json, number_value, object_of, part_fields, present, text_value, Entries, Fields};
use crate::path::{check_path, AbsPath};
use crate::state::{clean_relative, is_clean_relative, KeyView, MountRecord, RecordView, State, STATE_VERSION};
use crate::text::{decimal, decimal_text, same};
use crate::timestamp::{instant_of, instant_text, Timestamp};

verus! {

// Values.

/// The value as a group.
pub open spec fn read_group(j: JsonView) -> Result<GroupIdView, Seq<char>> {
    match j {
        JsonView::Text(s) => match parse_group(s) {
            Ok(g) => Ok(g),
            Err(e) => Err(e.text()),
        },
        _ => Err(invalid_type(j, "a string"@)),
    }
}

/// The value as a name.
pub open spec fn read_name(j: JsonView) -> Result<Seq<char>, Seq<char>> {
    match j {
        JsonView::Text(s) => match check_text(s) {
            Ok(n) => Ok(n),
            Err(e) => Err(e.text()),
        },
        _ => Err(invalid_type(j, "a string"@)),
    }
}

/// The value as an absolute path.
pub open spec fn read_path(j: JsonView) -> Result<Seq<char>, Seq<char>> {
    match j {
        JsonView::Text(s) => match check_path(s) {
            Ok(p) => Ok(p),
            Err(e) => Err(e.text()),
        },
        _ => Err(invalid_type(j, "a string"@)),
    }
}

/// The value as text.
pub open spec fn read_text(j: JsonView) -> Result<Seq<char>, Seq<char>> {
    match j {
        JsonView::Text(s) => Ok(s),
        _ => Err(invalid_type(j, "a string"@)),
    }
}

/// The value as a 64-bit number.
pub open spec fn read_u64(j: JsonView) -> Result<u64, Seq<char>> {
    match j {
        JsonView::Unsigned(n) => Ok(n),
        JsonView::Negative(_) => Err(invalid_value(j, "u64"@)),
        _ => Err(invalid_type(j, "u64"@)),
    }
}

/// The value as a 64-bit number that may be `null`.
pub open spec fn read_maybe(j: JsonView) -> Result<Option<u64>, Seq<char>> {
    if j is Null {
        Ok(None)
    } else {
        match read_u64(j) {
            Ok(n) => Ok(Some(n)),
            Err(e) => Err(e),
        }
    }
}

/// The value as a 32-bit number.
pub open spec fn read_u32(j: JsonView) -> Result<u32, Seq<char>> {
    match j {
        JsonView::Unsigned(n) => if n <= u32::MAX {
            Ok(n as u32)
        } else {
            Err(invalid_value(j, "u32"@))
        },
        JsonView::Negative(_) => Err(invalid_value(j, "u32"@)),
        _ => Err(invalid_type(j, "u32"@)),
    }
}

/// The value as a truth value.
pub open spec fn read_flag(j: JsonView) -> Result<bool, Seq<char>> {
    match j {
        JsonView::Bool(b) => Ok(b),
        _ => Err(invalid_type(j, "a boolean"@)),
    }
}

/// The value as a truth value that may be `null`.
pub open spec fn read_maybe_flag(j: JsonView) -> Result<Option<bool>, Seq<char>> {
    if j is Null {
        Ok(None)
    } else {
        match read_flag(j) {
            Ok(b) => Ok(Some(b)),
            Err(e) => Err(e),
        }
    }
}

/// The value as a point in time.
pub open spec fn read_time(j: JsonView) -> Result<i128, Seq<char>> {
    match j {
        JsonView::Text(s) => instant_of(s),
        _ => Err(invalid_type(j, "a timestamp string"@)),
    }
}

fn group_in(n: &Node) -> (r: Result<GroupId, String>)
    ensures
        match r {
            Ok(g) => read_group(n@) == Result::<GroupIdView, Seq<char>>::Ok(g@),
            Err(e) => read_group(n@) == Result::<GroupIdView, Seq<char>>::Err(e@),
        },
{
    match n {
        Node::Text(s) => match GroupId::parse(s.as_str()) {
            Ok(g) => Ok(g),
            Err(e) => Err(e.message()),
        },
        _ => Err(type_error(n, "a string")),
    }
}

fn name_in(n: &Node) -> (r: Result<Name, String>)
    ensures
        match r {
            Ok(g) => read_name(n@) == Result::<Seq<char>, Seq<char>>::Ok(g@),
            Err(e) => read_name(n@) == Result::<Seq<char>, Seq<char>>::Err(e@),
        },
{
    match n {
        Node::Text(s) => match Name::new(s.as_str()) {
            Ok(g) => Ok(g),
            Err(e) => Err(e.message()),
        },
        _ => Err(type_error(n, "a string")),
    }
}

fn path_in(n: &Node) -> (r: Result<AbsPath, String>)
    ensures
        match r {
            Ok(g) => read_path(n@) == Result::<Seq<char>, Seq<char>>::Ok(g@),
            Err(e) => read_path(n@) == Result::<Seq<char>, Seq<char>>::Err(e@),
        },
{
    match n {
        Node::Text(s) => match AbsPath::new(s.as_str()) {
            Ok(g) => Ok(g),
            Err(e) => Err(e.message()),
        },
        _ => Err(type_error(n, "a string")),
    }
}

pub(crate) fn text_in(n: &Node) -> (r: Result<String, String>)
    ensures
        match r {
            Ok(g) => read_text(n@) == Result::<Seq<char>, Seq<char>>::Ok(g@),
            Err(e) => read_text(n@) == Result::<Seq<char>, Seq<char>>::Err(e@),
        },
{
    match n {
        Node::Text(s) => Ok(s.clone()),
        _ => Err(type_error(n, "a string")),
    }
}

pub(crate) fn u64_in(n: &Node) -> (r: Result<u64, String>)
    ensures
        match r {
            Ok(g) => read_u64(n@) == Result::<u64, Seq<char>>::Ok(g),
            Err(e) => read_u64(n@) == Result::<u64, Seq<char>>::Err(e@),
        },
{
    match n {
        Node::Unsigned(n) => Ok(*n),
        Node::Negative(_) => Err(value_error(n, "u64")),
        _ => Err(type_error(n, "u64")),
    }
}

fn maybe_in(n: &Node) -> (r: Result<Option<u64>, String>)
    ensures
        match r {
            Ok(g) => read_maybe(n@) == Result::<Option<u64>, Seq<char>>::Ok(g),
            Err(e) => read_maybe(n@) == Result::<Option<u64>, Seq<char>>::Err(e@),
        },
{
    match n {
        Node::Null => Ok(None),
        _ => match u64_in(n) {
            Ok(n) => Ok(Some(n)),
            Err(e) => Err(e),
        },
    }
}

fn u32_in(n: &Node) -> (r: Result<u32, String>)
    ensures
        match r {
            Ok(g) => read_u32(n@) == Result::<u32, Seq<char>>::Ok(g),
            Err(e) => read_u32(n@) == Result::<u32, Seq<char>>::Err(e@),
        },
{
    match n {
        Node::Unsigned(value) => if *value <= u32::MAX as u64 {
            Ok(*value as u32)
        } else {
            Err(value_error(n, "u32"))
        },
        Node::Negative(_) => Err(value_error(n, "u32")),
        _ => Err(type_error(n, "u32")),
    }
}

pub(crate) fn flag_in(n: &Node) -> (r: Result<bool, String>)
    ensures
        match r {
            Ok(g) => read_flag(n@) == Result::<bool, Seq<char>>::Ok(g),
            Err(e) => read_flag(n@) == Result::<bool, Seq<char>>::Err(e@),
        },
{
    match n {
        Node::Bool(b) => Ok(*b),
        _ => Err(type_error(n, "a boolean")),
    }
}

fn maybe_flag_in(n: &Node) -> (r: Result<Option<bool>, String>)
    ensures
        match r {
            Ok(g) => read_maybe_flag(n@) == Result::<Option<bool>, Seq<char>>::Ok(g),
            Err(e) => read_maybe_flag(n@) == Result::<Option<bool>, Seq<char>>::Err(e@),
        },
{
    match n {
        Node::Null => Ok(None),
        _ => match flag_in(n) {
            Ok(b) => Ok(Some(b)),
            Err(e) => Err(e),
        },
    }
}

fn time_in(n: &Node) -> (r: Result<Timestamp, String>)
    ensures
        match r {
            Ok(t) => read_time(n@) == Result::<i128, Seq<char>>::Ok(t@),
            Err(e) => read_time(n@) == Result::<i128, Seq<char>>::Err(e@),
        },
{
    match n {
        Node::Text(s) => Timestamp::parse(s.as_str()),
        _ => Err(type_error(n, "a timestamp string")),
    }
}

// Records.

/// Why a field that a document does not know is refused.
pub open spec fn unknown_field(key: Seq<char>, expected: Seq<char>) -> Seq<char> {
    "unknown field `"@ + key + "`, expected "@ + expected
}

/// Why a document without a field is refused.
pub open spec fn missing_field(key: Seq<char>) -> Seq<char> {
    "missing field `"@ + key + "`"@
}

/// The fields of a record.
pub const RECORD_FIELDS: &'static str = "one of `group`, `name`, `source_root`, `source`, `target_root`, `target`, `mnt_id`, `mnt_id_unique`, `root_dev_major`, `root_dev_minor`, `root_ino`, `read_only`, `noexec`, `nosymfollow`, `created_at`";

/// The error in a result, if any.
pub open spec fn error_in<T>(r: Result<T, Seq<char>>) -> Option<Seq<char>> {
    match r {
        Ok(_) => None,
        Err(e) => Some(e),
    }
}

/// What is wrong with an entry of a record, on its own.
pub open spec fn entry_error(key: Seq<char>, j: JsonView) -> Option<Seq<char>> {
    if key == "group"@ {
        error_in(read_group(j))
    } else if key == "name"@ {
        error_in(read_name(j))
    } else if key == "source_root"@ || key == "target_root"@ {
        error_in(read_path(j))
    } else if key == "source"@ || key == "target"@ {
        error_in(read_text(j))
    } else if key == "mnt_id"@ || key == "root_ino"@ {
        error_in(read_u64(j))
    } else if key == "mnt_id_unique"@ {
        error_in(read_maybe(j))
    } else if key == "root_dev_major"@ || key == "root_dev_minor"@ {
        error_in(read_u32(j))
    } else if key == "read_only"@ || key == "noexec"@ || key == "nosymfollow"@ {
        error_in(read_maybe_flag(j))
    } else if key == "created_at"@ {
        error_in(read_time(j))
    } else {
        Some(unknown_field(key, RECORD_FIELDS@))
    }
}

/// The first entry that is wrong on its own.
pub open spec fn entries_error(entries: Entries) -> Option<Seq<char>>
    decreases entries.len(),
{
    if entries.len() == 0 {
        None
    } else {
        match entries_error(entries.drop_last()) {
            Some(e) => Some(e),
            None => entry_error(entries.last().0, entries.last().1),
        }
    }
}

/// The value under a key that has to be there.
pub open spec fn required(entries: Entries, key: Seq<char>) -> Result<JsonView, Seq<char>> {
    match lookup(entries, key) {
        Some(j) => Ok(j),
        None => Err(missing_field(key)),
    }
}

/// The first of the fields that have to be there and are not.
pub open spec fn missing_error(entries: Entries, fields: Seq<Seq<char>>) -> Option<Seq<char>>
    decreases fields.len(),
{
    if fields.len() == 0 {
        None
    } else {
        match missing_error(entries, fields.drop_last()) {
            Some(e) => Some(e),
            None => error_in(required(entries, fields.last())),
        }
    }
}

/// The fields that a record has to have, in order.
pub open spec fn required_fields() -> Seq<Seq<char>> {
    seq![
        "group"@,
        "name"@,
        "source_root"@,
        "source"@,
        "target_root"@,
        "target"@,
        "mnt_id"@,
        "root_dev_major"@,
        "root_dev_minor"@,
        "root_ino"@,
        "created_at"@,
    ]
}

/// The truth value under a key that may be missing.
pub open spec fn flag_under(entries: Entries, key: Seq<char>) -> Option<bool> {
    match lookup(entries, key) {
        Some(j) => read_maybe_flag(j)->Ok_0,
        None => None,
    }
}

/// The record in entries that are all right.
pub open spec fn record_in(entries: Entries) -> RecordView {
    RecordView {
        group: read_group(lookup(entries, "group"@)->0)->Ok_0,
        name: read_name(lookup(entries, "name"@)->0)->Ok_0,
        source_root: read_path(lookup(entries, "source_root"@)->0)->Ok_0,
        source: read_text(lookup(entries, "source"@)->0)->Ok_0,
        target_root: read_path(lookup(entries, "target_root"@)->0)->Ok_0,
        target: read_text(lookup(entries, "target"@)->0)->Ok_0,
        identity: MountIdentity {
            mnt_id: read_u64(lookup(entries, "mnt_id"@)->0)->Ok_0,
            mnt_id_unique: match lookup(entries, "mnt_id_unique"@) {
                Some(j) => read_maybe(j)->Ok_0,
                None => None,
            },
            root: DevIno {
                dev_major: read_u32(lookup(entries, "root_dev_major"@)->0)->Ok_0,
                dev_minor: read_u32(lookup(entries, "root_dev_minor"@)->0)->Ok_0,
                ino: read_u64(lookup(entries, "root_ino"@)->0)->Ok_0,
            },
        },
        read_only: flag_under(entries, "read_only"@),
        noexec: flag_under(entries, "noexec"@),
        nosymfollow: flag_under(entries, "nosymfollow"@),
        created_at: read_time(lookup(entries, "created_at"@)->0)->Ok_0,
    }
}

/// The fields of a record that is written as a list of their values, in order.
/// Such a list does not tell the attributes that the mount was made with.
pub open spec fn listed_fields() -> Seq<Seq<char>> {
    seq![
        "group"@,
        "name"@,
        "source_root"@,
        "source"@,
        "target_root"@,
        "target"@,
        "mnt_id"@,
        "mnt_id_unique"@,
        "root_dev_major"@,
        "root_dev_minor"@,
        "root_ino"@,
        "created_at"@,
    ]
}

/// The number of values in a record that is written as a list.
pub const LISTED: usize = 12;

/// What is wrong with the number of values in a record that is written as a list.
/// The first value that is missing is told, but for the unique mount ID, which
/// may be.
pub open spec fn listed_error(n: nat) -> Option<Seq<char>> {
    if n < LISTED {
        Some(
            invalid_length(
                if n == 7 {
                    8
                } else {
                    n
                },
                "struct MountRecord with 12 elements"@,
            ),
        )
    } else if n > LISTED {
        Some(invalid_length(n, "fewer elements in array"@))
    } else {
        None
    }
}

/// The record that a value stands for: every entry is right on its own, and no
/// field is missing. A list stands for the values of the fields in order.
pub open spec fn read_record(j: JsonView) -> Result<RecordView, Seq<char>> {
    match j {
        JsonView::List(items) => {
            let entries = listed(listed_fields(), items);
            match entries_error(entries) {
                Some(e) => Err(e),
                None => match listed_error(items.len()) {
                    Some(e) => Err(e),
                    None => Ok(record_in(entries)),
                },
            }
        },
        JsonView::Object(entries) => match entries_error(entries) {
            Some(e) => Err(e),
            None => match missing_error(entries, required_fields()) {
                Some(e) => Err(e),
                None => Ok(record_in(entries)),
            },
        },
        _ => Err(invalid_type(j, "struct MountRecord"@)),
    }
}

/// The records that values stand for, or what is wrong with the first that
/// stands for none.
pub open spec fn read_records(items: Seq<JsonView>) -> Result<Seq<RecordView>, Seq<char>>
    decreases items.len(),
{
    if items.len() == 0 {
        Ok(Seq::empty())
    } else {
        match read_records(items.drop_last()) {
            Err(e) => Err(e),
            Ok(records) => match read_record(items.last()) {
                Err(e) => Err(e),
                Ok(record) => Ok(records.push(record)),
            },
        }
    }
}

/// The records in the list of mounts.
pub open spec fn read_mounts(j: JsonView) -> Result<Seq<RecordView>, Seq<char>> {
    match j {
        JsonView::List(items) => read_records(items),
        _ => Err(invalid_type(j, "a sequence"@)),
    }
}

/// The records in the entries of a document, if it has a list of mounts.
pub open spec fn read_document(entries: Entries) -> Result<Option<Seq<RecordView>>, Seq<char>>
    decreases entries.len(),
{
    if entries.len() == 0 {
        Ok(None)
    } else {
        match read_document(entries.drop_last()) {
            Err(e) => Err(e),
            Ok(mounts) => if entries.last().0 == "version"@ {
                Ok(mounts)
            } else if entries.last().0 == "mounts"@ {
                match read_mounts(entries.last().1) {
                    Err(e) => Err(e),
                    Ok(records) => Ok(Some(records)),
                }
            } else {
                Err(unknown_field(entries.last().0, "`version` or `mounts`"@))
            },
        }
    }
}

/// Why the record's paths are refused, if they are.
pub open spec fn path_error(r: RecordView) -> Option<Seq<char>> {
    if !clean_relative(r.source) {
        Some(
            "record "@ + r.key().text() + ": invalid source path '"@ + debug_escaped(r.source)
                + "'"@,
        )
    } else if !clean_relative(r.target) {
        Some(
            "record "@ + r.key().text() + ": invalid target path '"@ + debug_escaped(r.target)
                + "'"@,
        )
    } else {
        None
    }
}

/// The state that records make up, or what is wrong with the first that cannot
/// be part of it.
pub open spec fn collect(records: Seq<RecordView>) -> Result<
    Map<KeyView, RecordView>,
    Seq<char>,
>
    decreases records.len(),
{
    if records.len() == 0 {
        Ok(Map::empty())
    } else {
        match collect(records.drop_last()) {
            Err(e) => Err(e),
            Ok(state) => match path_error(records.last()) {
                Some(e) => Err(e),
                None => if state.contains_key(records.last().key()) {
                    Err("duplicate record for "@ + records.last().key().text())
                } else {
                    Ok(state.insert(records.last().key(), records.last()))
                },
            },
        }
    }
}

/// Why state content could not be decoded.
#[derive(Debug, PartialEq, Eq)]
pub enum DecodeError {
    /// The document declares a format version this binary does not support.
    UnsupportedVersion(u64),
    /// The document is malformed.
    Malformed(String),
}

/// What a decode error stands for.
#[verifier::ext_equal]
pub enum DecodeErrorView {
    /// An unsupported version.
    UnsupportedVersion(u64),
    /// A malformed document.
    Malformed(Seq<char>),
}

impl View for DecodeError {
    type V = DecodeErrorView;

    open spec fn view(&self) -> DecodeErrorView {
        match self {
            DecodeError::UnsupportedVersion(n) => DecodeErrorView::UnsupportedVersion(*n),
            DecodeError::Malformed(s) => DecodeErrorView::Malformed(s@),
        }
    }
}

impl DecodeErrorView {
    /// The error as text.
    pub open spec fn text(self) -> Seq<char> {
        match self {
            DecodeErrorView::UnsupportedVersion(n) => "unsupported state file version "@ + decimal(
                n as nat,
            ) + " (this build supports version "@ + decimal(STATE_VERSION as nat) + ")"@,
            DecodeErrorView::Malformed(s) => "malformed state file: "@ + s,
        }
    }
}

impl DecodeError {
    /// Describes the error.
    pub fn message(&self) -> (r: String)
        ensures
            r@ == self@.text(),
    {
        let mut out = String::new();
        match self {
            DecodeError::UnsupportedVersion(n) => {
                out.append("unsupported state file version ");
                out.append(decimal_text(*n).as_str());
                out.append(" (this build supports version ");
                out.append(decimal_text(STATE_VERSION).as_str());
                out.append(")");
            },
            DecodeError::Malformed(s) => {
                out.append("malformed state file: ");
                out.append(s.as_str());
            },
        }
        assert(out@ =~= self@.text());
        out
    }
}

/// A malformed document.
pub open spec fn malformed(reason: Seq<char>) -> Result<
    Map<KeyView, RecordView>,
    DecodeErrorView,
> {
    Err(DecodeErrorView::Malformed(reason))
}

/// The state that a JSON value stands for. The version is looked at first.
pub open spec fn decoded_json(j: JsonView) -> Result<Map<KeyView, RecordView>, DecodeErrorView> {
    match j {
        JsonView::Object(entries) => match lookup(entries, "version"@) {
            None => malformed("missing 'version'"@),
            Some(JsonView::Unsigned(version)) => if version != STATE_VERSION {
                Err(DecodeErrorView::UnsupportedVersion(version))
            } else {
                match read_document(entries) {
                    Err(e) => malformed(e),
                    Ok(None) => malformed(missing_field("mounts"@)),
                    Ok(Some(records)) => match collect(records) {
                        Err(e) => malformed(e),
                        Ok(state) => Ok(state),
                    },
                }
            },
            Some(_) => malformed("'version' is not an unsigned integer"@),
        },
        _ => malformed("missing 'version'"@),
    }
}

/// The state that bytes stand for.
pub open spec fn decoded(bytes: Seq<u8>) -> Result<Map<KeyView, RecordView>, DecodeErrorView> {
    match json_read(bytes) {
        Err(e) => malformed(e),
        Ok(j) => decoded_json(j),
    }
}

// Decoding.

/// The entries of an object whose values were taken apart.
pub open spec fn node_entries(entries: Seq<(String, Node)>) -> Entries {
    entries.map_values(|e: (String, Node)| (e.0@, e.1@))
}

pub(crate) fn part_entries(entries: Vec<(String, serde_json::Value)>) -> (r: Vec<(String, Node)>)
    ensures
        node_entries(r@) == entry_contents(entries@),
{
    let ghost all = entry_contents(entries@);
    let mut out: Vec<(String, Node)> = Vec::new();
    assert(node_entries(out@) =~= all.take(0));
    for entry in it: entries
        invariant
            it.seq() == entries@,
            all == entry_contents(entries@),
            node_entries(out@) == all.take(it.index() as int),
    {
        let ghost k = it.index() as int;
        let ghost before = node_entries(out@);
        assert(all[k] == (entry.0@, crate::json::content(entry.1)));
        let (key, inner) = entry;
        let item = (key, node(inner));
        let ghost added = (item.0@, item.1@);
        out.push(item);
        assert(node_entries(out@) =~= before.push(added));
        assert(all.take(k + 1) =~= all.take(k).push(added));
    }
    assert(all.take(all.len() as int) =~= all);
    out
}

pub(crate) fn find<'a>(entries: &'a Vec<(String, Node)>, key: &str) -> (r: Option<&'a Node>)
    ensures
        match r {
            Some(n) => lookup(node_entries(entries@), key@) == Some(n@),
            None => lookup(node_entries(entries@), key@) is None,
        },
{
    let ghost all = node_entries(entries@);
    let mut i: usize = entries.len();
    assert(all.take(i as int) =~= all);
    while i > 0
        invariant
            i <= entries@.len(),
            all == node_entries(entries@),
            lookup(all, key@) == lookup(all.take(i as int), key@),
        decreases i,
    {
        i -= 1;
        let ghost head = all.take(i + 1);
        assert(head.drop_last() =~= all.take(i as int));
        assert(head.last() == all[i as int]);
        let entry = &entries[i];
        assert(all[i as int] == (entry.0@, entry.1@));
        if same(entry.0.as_str(), key) {
            return Some(&entry.1);
        }
    }
    None
}

pub(crate) fn unknown(key: &str, expected: &str) -> (r: String)
    ensures
        r@ == unknown_field(key@, expected@),
{
    let mut out = String::new();
    out.append("unknown field `");
    out.append(key);
    out.append("`, expected ");
    out.append(expected);
    assert(out@ =~= unknown_field(key@, expected@));
    out
}

pub(crate) fn missing(key: &str) -> (r: String)
    ensures
        r@ == missing_field(key@),
{
    let mut out = String::new();
    out.append("missing field `");
    out.append(key);
    out.append("`");
    assert(out@ =~= missing_field(key@));
    out
}

fn check_entry(key: &str, n: &Node) -> (r: Result<(), String>)
    ensures
        match r {
            Ok(_) => entry_error(key@, n@) is None,
            Err(e) => entry_error(key@, n@) == Some(e@),
        },
{
    if same(key, "group") {
        match group_in(n) {
            Ok(_) => Ok(()),
            Err(e) => Err(e),
        }
    } else if same(key, "name") {
        match name_in(n) {
            Ok(_) => Ok(()),
            Err(e) => Err(e),
        }
    } else if same(key, "source_root") || same(key, "target_root") {
        match path_in(n) {
            Ok(_) => Ok(()),
            Err(e) => Err(e),
        }
    } else if same(key, "source") || same(key, "target") {
        match text_in(n) {
            Ok(_) => Ok(()),
            Err(e) => Err(e),
        }
    } else if same(key, "mnt_id") || same(key, "root_ino") {
        match u64_in(n) {
            Ok(_) => Ok(()),
            Err(e) => Err(e),
        }
    } else if same(key, "mnt_id_unique") {
        match maybe_in(n) {
            Ok(_) => Ok(()),
            Err(e) => Err(e),
        }
    } else if same(key, "root_dev_major") || same(key, "root_dev_minor") {
        match u32_in(n) {
            Ok(_) => Ok(()),
            Err(e) => Err(e),
        }
    } else if same(key, "read_only") || same(key, "noexec") || same(key, "nosymfollow") {
        match maybe_flag_in(n) {
            Ok(_) => Ok(()),
            Err(e) => Err(e),
        }
    } else if same(key, "created_at") {
        match time_in(n) {
            Ok(_) => Ok(()),
            Err(e) => Err(e),
        }
    } else {
        Err(unknown(key, RECORD_FIELDS))
    }
}

/// What is wrong with the first entries stays wrong.
proof fn lemma_entries_error_stays(entries: Entries, n: int)
    requires
        0 <= n <= entries.len(),
        entries_error(entries.take(n)) is Some,
    ensures
        entries_error(entries) == entries_error(entries.take(n)),
    decreases entries.len(),
{
    if n == entries.len() {
        assert(entries.take(n) =~= entries);
    } else {
        assert(entries.drop_last().take(n) =~= entries.take(n));
        lemma_entries_error_stays(entries.drop_last(), n);
    }
}

fn check_entries(entries: &Vec<(String, Node)>) -> (r: Result<(), String>)
    ensures
        match r {
            Ok(_) => entries_error(node_entries(entries@)) is None,
            Err(e) => entries_error(node_entries(entries@)) == Some(e@),
        },
{
    let ghost all = node_entries(entries@);
    let mut i: usize = 0;
    assert(all.take(0) =~= Seq::empty());
    while i < entries.len()
        invariant
            i <= entries@.len(),
            all == node_entries(entries@),
            entries_error(all.take(i as int)) is None,
        decreases entries@.len() - i,
    {
        let entry = &entries[i];
        let ghost head = all.take(i + 1);
        proof {
            assert(head.drop_last() =~= all.take(i as int));
            assert(head.last() == all[i as int]);
            assert(all[i as int] == (entry.0@, entry.1@));
        }
        match check_entry(entry.0.as_str(), &entry.1) {
            Ok(_) => {},
            Err(e) => {
                proof {
                    lemma_entries_error_stays(all, i + 1);
                }
                return Err(e);
            },
        }
        i += 1;
    }
    assert(all.take(all.len() as int) =~= all);
    Ok(())
}

/// A missing field stays missing.
pub(crate) proof fn lemma_missing_stays(entries: Entries, fields: Seq<Seq<char>>, n: int)
    requires
        0 <= n <= fields.len(),
        missing_error(entries, fields.take(n)) is Some,
    ensures
        missing_error(entries, fields) == missing_error(entries, fields.take(n)),
    decreases fields.len(),
{
    if n == fields.len() {
        assert(fields.take(n) =~= fields);
    } else {
        assert(fields.drop_last().take(n) =~= fields.take(n));
        lemma_missing_stays(entries, fields.drop_last(), n);
    }
}

fn check_missing(entries: &Vec<(String, Node)>) -> (r: Result<(), String>)
    ensures
        match r {
            Ok(_) => missing_error(node_entries(entries@), required_fields()) is None,
            Err(e) => missing_error(node_entries(entries@), required_fields()) == Some(e@),
        },
{
    let fields: Vec<&'static str> = vec![
        "group",
        "name",
        "source_root",
        "source",
        "target_root",
        "target",
        "mnt_id",
        "root_dev_major",
        "root_dev_minor",
        "root_ino",
        "created_at",
    ];
    let ghost all = required_fields();
    let ghost views = node_entries(entries@);
    assert(fields@.len() == all.len());
    assert forall|k: int| 0 <= k < all.len() implies all[k] == (#[trigger] fields@[k])@ by {}
    let mut i: usize = 0;
    assert(all.take(0) =~= Seq::empty());
    while i < fields.len()
        invariant
            i <= fields@.len(),
            fields@.len() == all.len(),
            views == node_entries(entries@),
            all == required_fields(),
            forall|k: int| 0 <= k < all.len() ==> all[k] == (#[trigger] fields@[k])@,
            missing_error(views, all.take(i as int)) is None,
        decreases fields@.len() - i,
    {
        let field = fields[i];
        let ghost head = all.take(i + 1);
        proof {
            assert(head.drop_last() =~= all.take(i as int));
            assert(head.last() == fields@[i as int]@);
        }
        match find(entries, field) {
            Some(_) => {},
            None => {
                proof {
                    lemma_missing_stays(views, all, i + 1);
                }
                return Err(missing(field));
            },
        }
        i += 1;
    }
    assert(all.take(all.len() as int) =~= all);
    Ok(())
}

/// Every entry of a document without errors is right on its own.
proof fn lemma_lookup_right(entries: Entries, key: Seq<char>)
    requires
        entries_error(entries) is None,
    ensures
        lookup(entries, key) matches Some(j) ==> entry_error(key, j) is None,
    decreases entries.len(),
{
    if entries.len() > 0 && entries.last().0 != key {
        lemma_lookup_right(entries.drop_last(), key);
    }
}

/// No field that has to be there is missing.
pub(crate) proof fn lemma_none_missing(entries: Entries, fields: Seq<Seq<char>>, i: int)
    requires
        missing_error(entries, fields) is None,
        0 <= i < fields.len(),
    ensures
        lookup(entries, fields[i]) is Some,
    decreases fields.len(),
{
    if i < fields.len() - 1 {
        lemma_none_missing(entries, fields.drop_last(), i);
    }
}

/// The entries of a record without errors are there and are right.
proof fn lemma_record_right(entries: Entries)
    requires
        entries_error(entries) is None,
        missing_error(entries, required_fields()) is None,
    ensures
        lookup(entries, "group"@) matches Some(j) && read_group(j) is Ok,
        lookup(entries, "name"@) matches Some(j) && read_name(j) is Ok,
        lookup(entries, "source_root"@) matches Some(j) && read_path(j) is Ok,
        lookup(entries, "source"@) matches Some(j) && read_text(j) is Ok,
        lookup(entries, "target_root"@) matches Some(j) && read_path(j) is Ok,
        lookup(entries, "target"@) matches Some(j) && read_text(j) is Ok,
        lookup(entries, "mnt_id"@) matches Some(j) && read_u64(j) is Ok,
        lookup(entries, "mnt_id_unique"@) matches Some(j) ==> read_maybe(j) is Ok,
        lookup(entries, "root_dev_major"@) matches Some(j) && read_u32(j) is Ok,
        lookup(entries, "root_dev_minor"@) matches Some(j) && read_u32(j) is Ok,
        lookup(entries, "root_ino"@) matches Some(j) && read_u64(j) is Ok,
        lookup(entries, "read_only"@) matches Some(j) ==> read_maybe_flag(j) is Ok,
        lookup(entries, "noexec"@) matches Some(j) ==> read_maybe_flag(j) is Ok,
        lookup(entries, "nosymfollow"@) matches Some(j) ==> read_maybe_flag(j) is Ok,
        lookup(entries, "created_at"@) matches Some(j) && read_time(j) is Ok,
{
    let fields = required_fields();
    lemma_none_missing(entries, fields, 0);
    lemma_lookup_right(entries, "group"@);
    lemma_field_kinds(lookup(entries, "group"@)->0);
    lemma_none_missing(entries, fields, 1);
    lemma_lookup_right(entries, "name"@);
    lemma_field_kinds(lookup(entries, "name"@)->0);
    lemma_none_missing(entries, fields, 2);
    lemma_lookup_right(entries, "source_root"@);
    lemma_field_kinds(lookup(entries, "source_root"@)->0);
    lemma_none_missing(entries, fields, 3);
    lemma_lookup_right(entries, "source"@);
    lemma_field_kinds(lookup(entries, "source"@)->0);
    lemma_none_missing(entries, fields, 4);
    lemma_lookup_right(entries, "target_root"@);
    lemma_field_kinds(lookup(entries, "target_root"@)->0);
    lemma_none_missing(entries, fields, 5);
    lemma_lookup_right(entries, "target"@);
    lemma_field_kinds(lookup(entries, "target"@)->0);
    lemma_none_missing(entries, fields, 6);
    lemma_lookup_right(entries, "mnt_id"@);
    lemma_field_kinds(lookup(entries, "mnt_id"@)->0);
    lemma_none_missing(entries, fields, 7);
    lemma_lookup_right(entries, "root_dev_major"@);
    lemma_field_kinds(lookup(entries, "root_dev_major"@)->0);
    lemma_none_missing(entries, fields, 8);
    lemma_lookup_right(entries, "root_dev_minor"@);
    lemma_field_kinds(lookup(entries, "root_dev_minor"@)->0);
    lemma_none_missing(entries, fields, 9);
    lemma_lookup_right(entries, "root_ino"@);
    lemma_field_kinds(lookup(entries, "root_ino"@)->0);
    lemma_none_missing(entries, fields, 10);
    lemma_lookup_right(entries, "created_at"@);
    lemma_field_kinds(lookup(entries, "created_at"@)->0);
    lemma_lookup_right(entries, "mnt_id_unique"@);
    if lookup(entries, "mnt_id_unique"@) is Some {
        lemma_field_kinds(lookup(entries, "mnt_id_unique"@)->0);
    }
    lemma_lookup_right(entries, "read_only"@);
    if lookup(entries, "read_only"@) is Some {
        lemma_field_kinds(lookup(entries, "read_only"@)->0);
    }
    lemma_lookup_right(entries, "noexec"@);
    if lookup(entries, "noexec"@) is Some {
        lemma_field_kinds(lookup(entries, "noexec"@)->0);
    }
    lemma_lookup_right(entries, "nosymfollow"@);
    if lookup(entries, "nosymfollow"@) is Some {
        lemma_field_kinds(lookup(entries, "nosymfollow"@)->0);
    }
}

/// The names of a record's fields differ from one another, so each is read in
/// its own way.
proof fn lemma_field_kinds(j: JsonView)
    ensures
        entry_error("group"@, j) == error_in(read_group(j)),
        entry_error("name"@, j) == error_in(read_name(j)),
        entry_error("source_root"@, j) == error_in(read_path(j)),
        entry_error("source"@, j) == error_in(read_text(j)),
        entry_error("target_root"@, j) == error_in(read_path(j)),
        entry_error("target"@, j) == error_in(read_text(j)),
        entry_error("mnt_id"@, j) == error_in(read_u64(j)),
        entry_error("mnt_id_unique"@, j) == error_in(read_maybe(j)),
        entry_error("root_dev_major"@, j) == error_in(read_u32(j)),
        entry_error("root_dev_minor"@, j) == error_in(read_u32(j)),
        entry_error("root_ino"@, j) == error_in(read_u64(j)),
        entry_error("read_only"@, j) == error_in(read_maybe_flag(j)),
        entry_error("noexec"@, j) == error_in(read_maybe_flag(j)),
        entry_error("nosymfollow"@, j) == error_in(read_maybe_flag(j)),
        entry_error("created_at"@, j) == error_in(read_time(j)),
{
    reveal_strlit("group");
    reveal_strlit("name");
    reveal_strlit("source_root");
    reveal_strlit("source");
    reveal_strlit("target_root");
    reveal_strlit("target");
    reveal_strlit("mnt_id");
    reveal_strlit("mnt_id_unique");
    reveal_strlit("root_dev_major");
    reveal_strlit("root_dev_minor");
    reveal_strlit("root_ino");
    reveal_strlit("read_only");
    reveal_strlit("noexec");
    reveal_strlit("nosymfollow");
    reveal_strlit("created_at");
    assert("name"@.len() == 4);
    assert("group"@.len() == 5);
    assert("source"@.len() == 6 && "target"@.len() == 6 && "mnt_id"@.len() == 6 && "noexec"@.len() == 6);
    assert("source"@[0] != "target"@[0]);
    assert("source"@[0] != "mnt_id"@[0]);
    assert("source"@[0] != "noexec"@[0]);
    assert("target"@[0] != "mnt_id"@[0]);
    assert("target"@[0] != "noexec"@[0]);
    assert("mnt_id"@[0] != "noexec"@[0]);
    assert("root_ino"@.len() == 8);
    assert("read_only"@.len() == 9);
    assert("created_at"@.len() == 10);
    assert("source_root"@.len() == 11 && "target_root"@.len() == 11 && "nosymfollow"@.len() == 11);
    assert("source_root"@[0] != "target_root"@[0]);
    assert("source_root"@[0] != "nosymfollow"@[0]);
    assert("target_root"@[0] != "nosymfollow"@[0]);
    assert("mnt_id_unique"@.len() == 13);
    assert("root_dev_major"@.len() == 14 && "root_dev_minor"@.len() == 14);
    assert("root_dev_major"@[10] != "root_dev_minor"@[10]);
}

fn group_at(entries: &Vec<(String, Node)>, key: &str) -> (r: Result<GroupId, String>)
    ensures
        match r {
            Ok(x) => lookup(node_entries(entries@), key@) matches Some(j) && read_group(j) == Result::<
                GroupIdView,
                Seq<char>,
            >::Ok(x@),
            Err(_) => match lookup(node_entries(entries@), key@) {
                Some(j) => read_group(j) is Err,
                None => true,
            },
        },
{
    match find(entries, key) {
        Some(n) => group_in(n),
        None => Err(String::new()),
    }
}

fn name_at(entries: &Vec<(String, Node)>, key: &str) -> (r: Result<Name, String>)
    ensures
        match r {
            Ok(x) => lookup(node_entries(entries@), key@) matches Some(j) && read_name(j) == Result::<
                Seq<char>,
                Seq<char>,
            >::Ok(x@),
            Err(_) => match lookup(node_entries(entries@), key@) {
                Some(j) => read_name(j) is Err,
                None => true,
            },
        },
{
    match find(entries, key) {
        Some(n) => name_in(n),
        None => Err(String::new()),
    }
}

fn path_at(entries: &Vec<(String, Node)>, key: &str) -> (r: Result<AbsPath, String>)
    ensures
        match r {
            Ok(x) => lookup(node_entries(entries@), key@) matches Some(j) && read_path(j) == Result::<
                Seq<char>,
                Seq<char>,
            >::Ok(x@),
            Err(_) => match lookup(node_entries(entries@), key@) {
                Some(j) => read_path(j) is Err,
                None => true,
            },
        },
{
    match find(entries, key) {
        Some(n) => path_in(n),
        None => Err(String::new()),
    }
}

fn text_at(entries: &Vec<(String, Node)>, key: &str) -> (r: Result<String, String>)
    ensures
        match r {
            Ok(x) => lookup(node_entries(entries@), key@) matches Some(j) && read_text(j) == Result::<
                Seq<char>,
                Seq<char>,
            >::Ok(x@),
            Err(_) => match lookup(node_entries(entries@), key@) {
                Some(j) => read_text(j) is Err,
                None => true,
            },
        },
{
    match find(entries, key) {
        Some(n) => text_in(n),
        None => Err(String::new()),
    }
}

fn u64_at(entries: &Vec<(String, Node)>, key: &str) -> (r: Result<u64, String>)
    ensures
        match r {
            Ok(x) => lookup(node_entries(entries@), key@) matches Some(j) && read_u64(j) == Result::<
                u64,
                Seq<char>,
            >::Ok(x),
            Err(_) => match lookup(node_entries(entries@), key@) {
                Some(j) => read_u64(j) is Err,
                None => true,
            },
        },
{
    match find(entries, key) {
        Some(n) => u64_in(n),
        None => Err(String::new()),
    }
}

fn u32_at(entries: &Vec<(String, Node)>, key: &str) -> (r: Result<u32, String>)
    ensures
        match r {
            Ok(x) => lookup(node_entries(entries@), key@) matches Some(j) && read_u32(j) == Result::<
                u32,
                Seq<char>,
            >::Ok(x),
            Err(_) => match lookup(node_entries(entries@), key@) {
                Some(j) => read_u32(j) is Err,
                None => true,
            },
        },
{
    match find(entries, key) {
        Some(n) => u32_in(n),
        None => Err(String::new()),
    }
}

fn maybe_flag_at(entries: &Vec<(String, Node)>, key: &str) -> (r: Result<Option<bool>, String>)
    ensures
        match r {
            Ok(x) => x == flag_under(node_entries(entries@), key@),
            Err(_) => lookup(node_entries(entries@), key@) matches Some(j) && read_maybe_flag(
                j,
            ) is Err,
        },
{
    match find(entries, key) {
        Some(n) => maybe_flag_in(n),
        None => Ok(None),
    }
}

fn time_at(entries: &Vec<(String, Node)>, key: &str) -> (r: Result<Timestamp, String>)
    ensures
        match r {
            Ok(x) => lookup(node_entries(entries@), key@) matches Some(j) && read_time(j) == Result::<
                i128,
                Seq<char>,
            >::Ok(x@),
            Err(_) => match lookup(node_entries(entries@), key@) {
                Some(j) => read_time(j) is Err,
                None => true,
            },
        },
{
    match find(entries, key) {
        Some(n) => time_in(n),
        None => Err(String::new()),
    }
}

fn maybe_at(entries: &Vec<(String, Node)>, key: &str) -> (r: Result<Option<u64>, String>)
    ensures
        match r {
            Ok(x) => x == (match lookup(node_entries(entries@), key@) {
                Some(j) => read_maybe(j)->Ok_0,
                None => None,
            }),
            Err(_) => lookup(node_entries(entries@), key@) matches Some(j) && read_maybe(j) is Err,
        },
{
    match find(entries, key) {
        Some(n) => maybe_in(n),
        None => Ok(None),
    }
}

/// The record in entries that are all right.
fn record_of_entries(entries: &Vec<(String, Node)>) -> (r: Result<MountRecord, String>)
    requires
        entries_error(node_entries(entries@)) is None,
        missing_error(node_entries(entries@), required_fields()) is None,
    ensures
        r matches Ok(record) && record@ == record_in(node_entries(entries@)),
{
    proof {
        lemma_record_right(node_entries(entries@));
    }
    let group = match group_at(entries, "group") {
        Ok(x) => x,
        Err(e) => return Err(e),
    };
    let name = match name_at(entries, "name") {
        Ok(x) => x,
        Err(e) => return Err(e),
    };
    let source_root = match path_at(entries, "source_root") {
        Ok(x) => x,
        Err(e) => return Err(e),
    };
    let source = match text_at(entries, "source") {
        Ok(x) => x,
        Err(e) => return Err(e),
    };
    let target_root = match path_at(entries, "target_root") {
        Ok(x) => x,
        Err(e) => return Err(e),
    };
    let target = match text_at(entries, "target") {
        Ok(x) => x,
        Err(e) => return Err(e),
    };
    let mnt_id = match u64_at(entries, "mnt_id") {
        Ok(x) => x,
        Err(e) => return Err(e),
    };
    let mnt_id_unique = match maybe_at(entries, "mnt_id_unique") {
        Ok(x) => x,
        Err(e) => return Err(e),
    };
    let root_dev_major = match u32_at(entries, "root_dev_major") {
        Ok(x) => x,
        Err(e) => return Err(e),
    };
    let root_dev_minor = match u32_at(entries, "root_dev_minor") {
        Ok(x) => x,
        Err(e) => return Err(e),
    };
    let root_ino = match u64_at(entries, "root_ino") {
        Ok(x) => x,
        Err(e) => return Err(e),
    };
    let read_only = match maybe_flag_at(entries, "read_only") {
        Ok(x) => x,
        Err(e) => return Err(e),
    };
    let noexec = match maybe_flag_at(entries, "noexec") {
        Ok(x) => x,
        Err(e) => return Err(e),
    };
    let nosymfollow = match maybe_flag_at(entries, "nosymfollow") {
        Ok(x) => x,
        Err(e) => return Err(e),
    };
    let created_at = match time_at(entries, "created_at") {
        Ok(x) => x,
        Err(e) => return Err(e),
    };
    Ok(
        MountRecord {
            group,
            name,
            source_root,
            source,
            target_root,
            target,
            mnt_id,
            mnt_id_unique,
            root_dev_major,
            root_dev_minor,
            root_ino,
            read_only,
            noexec,
            nosymfollow,
            created_at,
        },
    )
}

/// A list of all values leaves out no field that has to be there.
proof fn lemma_listed_complete(items: Seq<JsonView>)
    requires
        items.len() == LISTED,
    ensures
        missing_error(listed(listed_fields(), items), required_fields()) is None,
{
    let entries = listed(listed_fields(), items);
    let fields = required_fields();
    assert forall|i: int| 0 <= i < fields.len() implies lookup(
        entries,
        #[trigger] fields[i],
    ) is Some by {
        let k = if i < 7 {
            i
        } else {
            i + 1
        };
        assert(listed_fields()[k] == fields[i]);
        assert(entries[k].0 == fields[i]);
        lemma_lookup_there(entries, k);
    }
    lemma_fields_there(entries, fields);
}

fn listed_record(values: Vec<serde_json::Value>) -> (r: Result<MountRecord, String>)
    ensures
        match r {
            Ok(record) => read_record(JsonView::List(crate::json::contents(values@))) == Result::<
                RecordView,
                Seq<char>,
            >::Ok(record@),
            Err(e) => read_record(JsonView::List(crate::json::contents(values@))) == Result::<
                RecordView,
                Seq<char>,
            >::Err(e@),
        },
{
    let names: Vec<&'static str> = vec![
        "group",
        "name",
        "source_root",
        "source",
        "target_root",
        "target",
        "mnt_id",
        "mnt_id_unique",
        "root_dev_major",
        "root_dev_minor",
        "root_ino",
        "created_at",
    ];
    assert(name_texts(names@) =~= listed_fields());
    let n: usize = values.len();
    let ghost items = crate::json::contents(values@);
    let entries = list_entries(&names, values);
    assert(node_entries(entries@) =~= listed(listed_fields(), items));
    if let Err(e) = check_entries(&entries) {
        return Err(e);
    }
    if n < LISTED {
        let first: usize = if n == 7 {
            8
        } else {
            n
        };
        return Err(length_error(first, "struct MountRecord with 12 elements"));
    }
    if n > LISTED {
        return Err(length_error(n, "fewer elements in array"));
    }
    proof {
        lemma_listed_complete(items);
    }
    record_of_entries(&entries)
}

fn record(n: Node) -> (r: Result<MountRecord, String>)
    ensures
        match r {
            Ok(record) => read_record(n@) == Result::<RecordView, Seq<char>>::Ok(record@),
            Err(e) => read_record(n@) == Result::<RecordView, Seq<char>>::Err(e@),
        },
{
    match n {
        Node::Object(values) => {
            let entries = part_entries(values);
            if let Err(e) = check_entries(&entries) {
                return Err(e);
            }
            if let Err(e) = check_missing(&entries) {
                return Err(e);
            }
            record_of_entries(&entries)
        },
        Node::List(values) => listed_record(values),
        other => Err(type_error(&other, "struct MountRecord")),
    }
}

/// The views of a list of records.
pub open spec fn mount_views(records: Seq<MountRecord>) -> Seq<RecordView> {
    records.map_values(|r: MountRecord| r@)
}

/// What is wrong with the first records stays wrong.
proof fn lemma_records_error_stays(items: Seq<JsonView>, n: int)
    requires
        0 <= n <= items.len(),
        read_records(items.take(n)) is Err,
    ensures
        read_records(items) == read_records(items.take(n)),
    decreases items.len(),
{
    if n == items.len() {
        assert(items.take(n) =~= items);
    } else {
        assert(items.drop_last().take(n) =~= items.take(n));
        lemma_records_error_stays(items.drop_last(), n);
    }
}

fn mounts(n: Node) -> (r: Result<Vec<MountRecord>, String>)
    ensures
        match r {
            Ok(records) => read_mounts(n@) == Result::<Seq<RecordView>, Seq<char>>::Ok(
                mount_views(records@),
            ),
            Err(e) => read_mounts(n@) == Result::<Seq<RecordView>, Seq<char>>::Err(e@),
        },
{
    match n {
        Node::List(values) => {
            let ghost items = crate::json::contents(values@);
            let mut out: Vec<MountRecord> = Vec::new();
            proof {
                assert(items.take(0) =~= Seq::empty());
                assert(mount_views(out@) =~= Seq::empty());
            }
            for inner in it: values
                invariant
                    it.seq() == values@,
                    n@ == JsonView::List(items),
                    items == crate::json::contents(values@),
                    read_records(items.take(it.index() as int)) == Result::<
                        Seq<RecordView>,
                        Seq<char>,
                    >::Ok(mount_views(out@)),
            {
                let ghost k = it.index() as int;
                let ghost head = items.take(k + 1);
                let ghost before = mount_views(out@);
                proof {
                    assert(items[k] == crate::json::content(inner));
                    assert(head.drop_last() =~= items.take(k));
                    assert(head.last() == items[k]);
                }
                match record(node(inner)) {
                    Ok(record) => {
                        let ghost added = record@;
                        out.push(record);
                        assert(mount_views(out@) =~= before.push(added));
                    },
                    Err(e) => {
                        proof {
                            lemma_records_error_stays(items, k + 1);
                        }
                        return Err(e);
                    },
                }
            }
            assert(items.take(items.len() as int) =~= items);
            Ok(out)
        },
        other => Err(type_error(&other, "a sequence")),
    }
}

/// What is wrong with the first entries of a document stays wrong.
proof fn lemma_document_error_stays(entries: Entries, n: int)
    requires
        0 <= n <= entries.len(),
        read_document(entries.take(n)) is Err,
    ensures
        read_document(entries) == read_document(entries.take(n)),
    decreases entries.len(),
{
    if n == entries.len() {
        assert(entries.take(n) =~= entries);
    } else {
        assert(entries.drop_last().take(n) =~= entries.take(n));
        lemma_document_error_stays(entries.drop_last(), n);
    }
}

/// The records, if there is a list of them.
pub open spec fn some_mounts(records: Option<Vec<MountRecord>>) -> Option<Seq<RecordView>> {
    match records {
        Some(records) => Some(mount_views(records@)),
        None => None,
    }
}

fn document(entries: Vec<(String, Node)>) -> (r: Result<Option<Vec<MountRecord>>, String>)
    ensures
        match r {
            Ok(records) => read_document(node_entries(entries@)) == Result::<
                Option<Seq<RecordView>>,
                Seq<char>,
            >::Ok(some_mounts(records)),
            Err(e) => read_document(node_entries(entries@)) == Result::<
                Option<Seq<RecordView>>,
                Seq<char>,
            >::Err(e@),
        },
{
    let ghost all = node_entries(entries@);
    let mut found: Option<Vec<MountRecord>> = None;
    assert(all.take(0) =~= Seq::empty());
    for entry in it: entries
        invariant
            it.seq() == entries@,
            all == node_entries(entries@),
            read_document(all.take(it.index() as int)) == Result::<
                Option<Seq<RecordView>>,
                Seq<char>,
            >::Ok(some_mounts(found)),
    {
        let ghost k = it.index() as int;
        let ghost head = all.take(k + 1);
        proof {
            assert(all[k] == (entry.0@, entry.1@));
            assert(head.drop_last() =~= all.take(k));
            assert(head.last() == all[k]);
        }
        let (key, inner) = entry;
        if same(key.as_str(), "version") {
        } else if same(key.as_str(), "mounts") {
            match mounts(inner) {
                Ok(records) => {
                    found = Some(records);
                },
                Err(e) => {
                    proof {
                        lemma_document_error_stays(all, k + 1);
                    }
                    return Err(e);
                },
            }
        } else {
            proof {
                lemma_document_error_stays(all, k + 1);
            }
            return Err(unknown(key.as_str(), "`version` or `mounts`"));
        }
    }
    assert(all.take(all.len() as int) =~= all);
    Ok(found)
}

fn check_record(record: &MountRecord) -> (r: Result<(), String>)
    ensures
        match r {
            Ok(_) => path_error(record@) is None,
            Err(e) => path_error(record@) == Some(e@),
        },
{
    if !is_clean_relative(record.source.as_str()) {
        let mut out = String::new();
        out.append("record ");
        out.append(record.key().text().as_str());
        out.append(": invalid source path '");
        out.append(escape_debug(record.source.as_str()).as_str());
        out.append("'");
        return Err(out);
    }
    if !is_clean_relative(record.target.as_str()) {
        let mut out = String::new();
        out.append("record ");
        out.append(record.key().text().as_str());
        out.append(": invalid target path '");
        out.append(escape_debug(record.target.as_str()).as_str());
        out.append("'");
        return Err(out);
    }
    Ok(())
}

/// What is wrong with the first records of a state stays wrong.
proof fn lemma_collect_error_stays(records: Seq<RecordView>, n: int)
    requires
        0 <= n <= records.len(),
        collect(records.take(n)) is Err,
    ensures
        collect(records) == collect(records.take(n)),
    decreases records.len(),
{
    if n == records.len() {
        assert(records.take(n) =~= records);
    } else {
        assert(records.drop_last().take(n) =~= records.take(n));
        lemma_collect_error_stays(records.drop_last(), n);
    }
}

fn collected(records: Vec<MountRecord>) -> (r: Result<State, String>)
    ensures
        match r {
            Ok(state) => collect(mount_views(records@)) == Result::<
                Map<KeyView, RecordView>,
                Seq<char>,
            >::Ok(state@),
            Err(e) => collect(mount_views(records@)) == Result::<
                Map<KeyView, RecordView>,
                Seq<char>,
            >::Err(e@),
        },
{
    let ghost all = mount_views(records@);
    let mut state = State::default();
    assert(all.take(0) =~= Seq::empty());
    for record in it: records
        invariant
            it.seq() == records@,
            all == mount_views(records@),
            collect(all.take(it.index() as int)) == Result::<
                Map<KeyView, RecordView>,
                Seq<char>,
            >::Ok(state@),
    {
        let ghost k = it.index() as int;
        let ghost head = all.take(k + 1);
        proof {
            assert(all[k] == record@);
            assert(head.drop_last() =~= all.take(k));
            assert(head.last() == all[k]);
        }
        if let Err(e) = check_record(&record) {
            proof {
                lemma_collect_error_stays(all, k + 1);
            }
            return Err(e);
        }
        let key = record.key();
        if state.insert(record).is_some() {
            proof {
                lemma_collect_error_stays(all, k + 1);
            }
            let mut out = String::new();
            out.append("duplicate record for ");
            out.append(key.text().as_str());
            return Err(out);
        }
    }
    assert(all.take(all.len() as int) =~= all);
    Ok(state)
}

impl State {
    /// Decodes the on-disk JSON format.
    pub fn decode(bytes: &[u8]) -> (r: Result<Self, DecodeError>)
        ensures
            match r {
                Ok(state) => decoded(bytes@) == Result::<
                    Map<KeyView, RecordView>,
                    DecodeErrorView,
                >::Ok(state@),
                Err(e) => decoded(bytes@) == Result::<
                    Map<KeyView, RecordView>,
                    DecodeErrorView,
                >::Err(e@),
            },
    {
        match read_json(bytes) {
            Ok(document) => Self::from_json(document),
            Err(e) => Err(DecodeError::Malformed(e)),
        }
    }

    /// The state that a JSON document stands for.
    pub fn from_json(json: Node) -> (r: Result<Self, DecodeError>)
        ensures
            match r {
                Ok(state) => decoded_json(json@) == Result::<
                    Map<KeyView, RecordView>,
                    DecodeErrorView,
                >::Ok(state@),
                Err(e) => decoded_json(json@) == Result::<
                    Map<KeyView, RecordView>,
                    DecodeErrorView,
                >::Err(e@),
            },
    {
        let entries = match json {
            Node::Object(values) => part_entries(values),
            _ => return Err(DecodeError::Malformed("missing 'version'".to_owned())),
        };
        match find(&entries, "version") {
            None => return Err(DecodeError::Malformed("missing 'version'".to_owned())),
            Some(Node::Unsigned(version)) => {
                if *version != STATE_VERSION {
                    return Err(DecodeError::UnsupportedVersion(*version));
                }
            },
            Some(_) => return Err(
                DecodeError::Malformed("'version' is not an unsigned integer".to_owned()),
            ),
        }
        match document(entries) {
            Err(e) => Err(DecodeError::Malformed(e)),
            Ok(None) => Err(DecodeError::Malformed(missing("mounts"))),
            Ok(Some(records)) => match collected(records) {
                Ok(state) => Ok(state),
                Err(e) => Err(DecodeError::Malformed(e)),
            },
        }
    }
}

// Encoding.

/// The fields of a record, in order.
pub open spec fn record_fields(r: RecordView) -> Fields {
    seq![
        ("group"@, Some(JsonView::Text(r.group.text()))),
        ("name"@, Some(JsonView::Text(r.name))),
        ("source_root"@, Some(JsonView::Text(r.source_root))),
        ("source"@, Some(JsonView::Text(r.source))),
        ("target_root"@, Some(JsonView::Text(r.target_root))),
        ("target"@, Some(JsonView::Text(r.target))),
        ("mnt_id"@, Some(JsonView::Unsigned(r.identity.mnt_id))),
        ("mnt_id_unique"@, number_json(r.identity.mnt_id_unique)),
        ("root_dev_major"@, Some(JsonView::Unsigned(r.identity.root.dev_major as u64))),
        ("root_dev_minor"@, Some(JsonView::Unsigned(r.identity.root.dev_minor as u64))),
        ("root_ino"@, Some(JsonView::Unsigned(r.identity.root.ino))),
        ("read_only"@, flag_json(r.read_only)),
        ("noexec"@, flag_json(r.noexec)),
        ("nosymfollow"@, flag_json(r.nosymfollow)),
        ("created_at"@, Some(JsonView::Text(instant_text(r.created_at)->0))),
    ]
}

/// A record as JSON.
pub open spec fn record_json(r: RecordView) -> JsonView {
    JsonView::Object(present(record_fields(r)))
}

/// The records under keys, as JSON.
pub open spec fn records_json(state: Map<KeyView, RecordView>, keys: Seq<KeyView>) -> Seq<JsonView> {
    keys.map_values(|k: KeyView| record_json(state[k]))
}

/// A state as JSON, its records under `keys`.
pub open spec fn state_json(state: Map<KeyView, RecordView>, keys: Seq<KeyView>) -> JsonView {
    JsonView::Object(
        seq![
            ("version"@, JsonView::Unsigned(STATE_VERSION)),
            ("mounts"@, JsonView::List(records_json(state, keys))),
        ],
    )
}

/// Whether a record is read back from what stands for it.
pub open spec fn is_sound(r: RecordView) -> bool {
    &&& parse_group(r.group.text()) matches Ok(g) && g == r.group
    &&& check_text(r.name) matches Ok(n) && n == r.name
    &&& check_path(r.source_root) matches Ok(p) && p == r.source_root
    &&& check_path(r.target_root) matches Ok(p) && p == r.target_root
    &&& instant_text(r.created_at) matches Some(text) && instant_of(text) matches Ok(t) && t
        == r.created_at
}

/// Whether every record's paths are relative and clean, as those of templates
/// are.
pub open spec fn clean_paths(state: Map<KeyView, RecordView>) -> bool {
    forall|k: KeyView| #[trigger]
        state.contains_key(k) ==> clean_relative(state[k].source) && clean_relative(
            state[k].target,
        )
}

/// The place of a field in a record.
spec fn place(key: Seq<char>) -> int {
    if key == "group"@ {
        0
    } else if key == "name"@ {
        1
    } else if key == "source_root"@ {
        2
    } else if key == "source"@ {
        3
    } else if key == "target_root"@ {
        4
    } else if key == "target"@ {
        5
    } else if key == "mnt_id"@ {
        6
    } else if key == "mnt_id_unique"@ {
        7
    } else if key == "root_dev_major"@ {
        8
    } else if key == "root_dev_minor"@ {
        9
    } else if key == "root_ino"@ {
        10
    } else if key == "read_only"@ {
        11
    } else if key == "noexec"@ {
        12
    } else if key == "nosymfollow"@ {
        13
    } else if key == "created_at"@ {
        14
    } else {
        15
    }
}

proof fn lemma_places()
    ensures
        place("group"@) == 0,
        place("name"@) == 1,
        place("source_root"@) == 2,
        place("source"@) == 3,
        place("target_root"@) == 4,
        place("target"@) == 5,
        place("mnt_id"@) == 6,
        place("mnt_id_unique"@) == 7,
        place("root_dev_major"@) == 8,
        place("root_dev_minor"@) == 9,
        place("root_ino"@) == 10,
        place("read_only"@) == 11,
        place("noexec"@) == 12,
        place("nosymfollow"@) == 13,
        place("created_at"@) == 14,
{
    reveal_strlit("group");
    reveal_strlit("name");
    reveal_strlit("source_root");
    reveal_strlit("source");
    reveal_strlit("target_root");
    reveal_strlit("target");
    reveal_strlit("mnt_id");
    reveal_strlit("mnt_id_unique");
    reveal_strlit("root_dev_major");
    reveal_strlit("root_dev_minor");
    reveal_strlit("root_ino");
    reveal_strlit("read_only");
    reveal_strlit("noexec");
    reveal_strlit("nosymfollow");
    reveal_strlit("created_at");
    assert("name"@.len() == 4);
    assert("group"@.len() == 5);
    assert("source"@.len() == 6);
    assert("target"@.len() == 6);
    assert("mnt_id"@.len() == 6);
    assert("noexec"@.len() == 6);
    assert("source"@[0] != "target"@[0]);
    assert("source"@[0] != "mnt_id"@[0]);
    assert("source"@[0] != "noexec"@[0]);
    assert("target"@[0] != "mnt_id"@[0]);
    assert("target"@[0] != "noexec"@[0]);
    assert("mnt_id"@[0] != "noexec"@[0]);
    assert("root_ino"@.len() == 8);
    assert("read_only"@.len() == 9);
    assert("created_at"@.len() == 10);
    assert("source_root"@.len() == 11);
    assert("target_root"@.len() == 11);
    assert("nosymfollow"@.len() == 11);
    assert("source_root"@[0] != "target_root"@[0]);
    assert("source_root"@[0] != "nosymfollow"@[0]);
    assert("target_root"@[0] != "nosymfollow"@[0]);
    assert("mnt_id_unique"@.len() == 13);
    assert("root_dev_major"@.len() == 14);
    assert("root_dev_minor"@.len() == 14);
    assert("root_dev_major"@[10] != "root_dev_minor"@[10]);
}

/// The fields of a record have names of their own.
proof fn lemma_record_fields(r: RecordView)
    ensures
        distinct(record_fields(r)),
{
    lemma_places();
    let fields = record_fields(r);
    assert forall|i: int| 0 <= i < fields.len() implies #[trigger] place(fields[i].0) == i by {}
    assert forall|i: int, j: int| 0 <= i < j < fields.len() implies (#[trigger] fields[i]).0 != (
    #[trigger] fields[j]).0 by {
        assert(place(fields[i].0) != place(fields[j].0));
    }
}

/// Entries that are right one by one hold no error.
proof fn lemma_entries_right(entries: Entries)
    requires
        forall|i: int|
            0 <= i < entries.len() ==> entry_error((#[trigger] entries[i]).0, entries[i].1) is None,
    ensures
        entries_error(entries) is None,
    decreases entries.len(),
{
    if entries.len() > 0 {
        lemma_entries_right(entries.drop_last());
        assert(entries.last() == entries[entries.len() - 1]);
    }
}

/// Where every field is there, none is missing.
pub(crate) proof fn lemma_fields_there(entries: Entries, fields: Seq<Seq<char>>)
    requires
        forall|i: int| 0 <= i < fields.len() ==> lookup(entries, #[trigger] fields[i]) is Some,
    ensures
        missing_error(entries, fields) is None,
    decreases fields.len(),
{
    if fields.len() > 0 {
        lemma_fields_there(entries, fields.drop_last());
        assert(fields.last() == fields[fields.len() - 1]);
    }
}

/// The entries of a record, found by their keys.
proof fn lemma_record_lookups(r: RecordView)
    ensures
        record_json(r) matches JsonView::Object(entries) && {
            &&& lookup(entries, "group"@) == record_fields(r)[0].1
            &&& lookup(entries, "name"@) == record_fields(r)[1].1
            &&& lookup(entries, "source_root"@) == record_fields(r)[2].1
            &&& lookup(entries, "source"@) == record_fields(r)[3].1
            &&& lookup(entries, "target_root"@) == record_fields(r)[4].1
            &&& lookup(entries, "target"@) == record_fields(r)[5].1
            &&& lookup(entries, "mnt_id"@) == record_fields(r)[6].1
            &&& lookup(entries, "mnt_id_unique"@) == record_fields(r)[7].1
            &&& lookup(entries, "root_dev_major"@) == record_fields(r)[8].1
            &&& lookup(entries, "root_dev_minor"@) == record_fields(r)[9].1
            &&& lookup(entries, "root_ino"@) == record_fields(r)[10].1
            &&& lookup(entries, "read_only"@) == record_fields(r)[11].1
            &&& lookup(entries, "noexec"@) == record_fields(r)[12].1
            &&& lookup(entries, "nosymfollow"@) == record_fields(r)[13].1
            &&& lookup(entries, "created_at"@) == record_fields(r)[14].1
        },
{
    let fields = record_fields(r);
    lemma_record_fields(r);
    lemma_present_lookup(fields, 0);
    lemma_present_lookup(fields, 1);
    lemma_present_lookup(fields, 2);
    lemma_present_lookup(fields, 3);
    lemma_present_lookup(fields, 4);
    lemma_present_lookup(fields, 5);
    lemma_present_lookup(fields, 6);
    lemma_present_lookup(fields, 7);
    lemma_present_lookup(fields, 8);
    lemma_present_lookup(fields, 9);
    lemma_present_lookup(fields, 10);
    lemma_present_lookup(fields, 11);
    lemma_present_lookup(fields, 12);
    lemma_present_lookup(fields, 13);
    lemma_present_lookup(fields, 14);
}

/// A sound record is read back from its JSON.
proof fn lemma_record_round_trip(r: RecordView)
    requires
        is_sound(r),
    ensures
        read_record(record_json(r)) == Result::<RecordView, Seq<char>>::Ok(r),
{
    let entries = record_json(r)->Object_0;
    lemma_record_lookups(r);
    assert forall|i: int| 0 <= i < entries.len() implies entry_error(
        (#[trigger] entries[i]).0,
        entries[i].1,
    ) is None by {
        let k = lemma_present_from(record_fields(r), i);
        lemma_field_kinds(entries[i].1);
    }
    lemma_entries_right(entries);
    let fields = required_fields();
    assert forall|i: int| 0 <= i < fields.len() implies lookup(
        entries,
        #[trigger] fields[i],
    ) is Some by {}
    lemma_fields_there(entries, fields);
    assert(record_in(entries) =~= r);
}

/// Sound records are read back from their JSON.
proof fn lemma_records_round_trip(state: Map<KeyView, RecordView>, keys: Seq<KeyView>)
    requires
        forall|i: int| 0 <= i < keys.len() ==> is_sound(state[#[trigger] keys[i]]),
    ensures
        read_records(records_json(state, keys)) == Result::<Seq<RecordView>, Seq<char>>::Ok(
            keys.map_values(|k: KeyView| state[k]),
        ),
    decreases keys.len(),
{
    let items = records_json(state, keys);
    let records = keys.map_values(|k: KeyView| state[k]);
    if keys.len() == 0 {
        assert(records =~= Seq::empty());
    } else {
        let front = keys.drop_last();
        assert forall|i: int| 0 <= i < front.len() implies is_sound(state[#[trigger] front[i]]) by {
            assert(front[i] == keys[i]);
        }
        lemma_records_round_trip(state, front);
        assert(items.drop_last() =~= records_json(state, front));
        assert(items.last() == record_json(state[keys.last()]));
        assert(is_sound(state[keys[keys.len() - 1]]));
        lemma_record_round_trip(state[keys.last()]);
        assert(records =~= front.map_values(|k: KeyView| state[k]).push(state[keys.last()]));
    }
}

/// Distinct records with clean paths make up the state they come from.
proof fn lemma_collected(state: Map<KeyView, RecordView>, keys: Seq<KeyView>)
    requires
        crate::state::keyed(state),
        clean_paths(state),
        keys.no_duplicates(),
        forall|i: int| 0 <= i < keys.len() ==> state.contains_key(#[trigger] keys[i]),
    ensures
        collect(keys.map_values(|k: KeyView| state[k])) == Result::<
            Map<KeyView, RecordView>,
            Seq<char>,
        >::Ok(state.restrict(keys.to_set())),
    decreases keys.len(),
{
    let records = keys.map_values(|k: KeyView| state[k]);
    if keys.len() == 0 {
        assert(state.restrict(keys.to_set()) =~= Map::empty());
    } else {
        let front = keys.drop_last();
        let last = keys.last();
        assert forall|i: int| 0 <= i < front.len() implies state.contains_key(
            #[trigger] front[i],
        ) by {
            assert(front[i] == keys[i]);
        }
        lemma_collected(state, front);
        assert(records.drop_last() =~= front.map_values(|k: KeyView| state[k]));
        assert(last == keys[keys.len() - 1]);
        assert(state.contains_key(last));
        assert(!front.to_set().contains(last)) by {
            if front.to_set().contains(last) {
                let i = choose|i: int| 0 <= i < front.len() && front[i] == last;
                assert(keys[i] == keys[keys.len() - 1]);
            }
        }
        assert forall|k: KeyView| keys.to_set().contains(k) <==> front.to_set().contains(k) || k
            == last by {
            if keys.to_set().contains(k) {
                let i = choose|i: int| 0 <= i < keys.len() && keys[i] == k;
                if i < keys.len() - 1 {
                    assert(front[i] == k);
                }
            }
            if front.to_set().contains(k) {
                let i = choose|i: int| 0 <= i < front.len() && front[i] == k;
                assert(keys[i] == k);
            }
        }
        assert(state.restrict(keys.to_set()) =~= state.restrict(front.to_set()).insert(
            last,
            state[last],
        ));
    }
}

/// A state whose records are sound and have clean paths is read back from its
/// JSON.
proof fn lemma_state_round_trip(state: Map<KeyView, RecordView>, keys: Seq<KeyView>)
    requires
        crate::state::keyed(state),
        clean_paths(state),
        keys.no_duplicates(),
        keys.to_set() == state.dom(),
        forall|i: int| 0 <= i < keys.len() ==> is_sound(state[#[trigger] keys[i]]),
    ensures
        decoded_json(state_json(state, keys)) == Result::<
            Map<KeyView, RecordView>,
            DecodeErrorView,
        >::Ok(state),
{
    reveal_strlit("version");
    reveal_strlit("mounts");
    assert("version"@.len() != "mounts"@.len());
    let entries = state_json(state, keys)->Object_0;
    let front = entries.drop_last();
    assert(front =~= seq![entries[0]]);
    assert(front.drop_last() =~= Seq::empty());
    assert(lookup(front, "version"@) == Some(JsonView::Unsigned(STATE_VERSION)));
    lemma_records_round_trip(state, keys);
    assert(read_document(front.drop_last()) == Result::<
        Option<Seq<RecordView>>,
        Seq<char>,
    >::Ok(None));
    assert(read_document(front) == Result::<Option<Seq<RecordView>>, Seq<char>>::Ok(None));
    assert forall|i: int| 0 <= i < keys.len() implies state.contains_key(#[trigger] keys[i]) by {
        assert(keys.to_set().contains(keys[i]));
    }
    lemma_collected(state, keys);
    assert(state.restrict(keys.to_set()) =~= state);
}

/// A record's JSON holds no number but integers and nothing nested.
proof fn lemma_record_plain(r: RecordView)
    ensures
        is_plain(record_json(r), 125),
{
    lemma_object_plain(record_fields(r), 124);
}

/// A state's JSON holds no number but integers and is not nested deeply.
proof fn lemma_state_plain(state: Map<KeyView, RecordView>, keys: Seq<KeyView>)
    ensures
        is_plain(state_json(state, keys), MAX_DEPTH as nat),
        state_json(state, keys) matches JsonView::Object(entries) && entry_keys(
            entries,
        ).no_duplicates(),
{
    reveal_strlit("version");
    reveal_strlit("mounts");
    let entries = state_json(state, keys)->Object_0;
    let names = entry_keys(entries);
    assert(names =~= seq!["version"@, "mounts"@]);
    assert("version"@.len() != "mounts"@.len());
    let items = records_json(state, keys);
    assert forall|i: int| 0 <= i < items.len() implies is_plain(#[trigger] items[i], 125) by {
        lemma_record_plain(state[keys[i]]);
    }
    lemma_list_plain(items, 125);
    assert forall|j: int| 0 <= j < entries.len() implies is_plain(
        (#[trigger] entries[j]).1,
        126,
    ) by {}
}

fn encode_record(r: &MountRecord) -> (json: serde_json::Value)
    ensures
        crate::json::content(json) == record_json(r@),
        is_sound(r@),
{
    proof {
        use_type_invariant(&r.name);
        crate::name::lemma_valid_name_passes(r.name@);
        use_type_invariant(&r.source_root);
        use_type_invariant(&r.target_root);
    }
    let group = r.group.text();
    let created_at = r.created_at.text();
    let parts: Vec<(&'static str, Option<serde_json::Value>)> = vec![
        ("group", text_value(group.as_str())),
        ("name", text_value(r.name.as_str())),
        ("source_root", text_value(r.source_root.as_path())),
        ("source", text_value(r.source.as_str())),
        ("target_root", text_value(r.target_root.as_path())),
        ("target", text_value(r.target.as_str())),
        ("mnt_id", number_value(r.mnt_id)),
        (
            "mnt_id_unique",
            match r.mnt_id_unique {
                Some(n) => number_value(n),
                None => None,
            },
        ),
        ("root_dev_major", number_value(r.root_dev_major as u64)),
        ("root_dev_minor", number_value(r.root_dev_minor as u64)),
        ("root_ino", number_value(r.root_ino)),
        ("read_only", flag_value(r.read_only)),
        ("noexec", flag_value(r.noexec)),
        ("nosymfollow", flag_value(r.nosymfollow)),
        ("created_at", text_value(created_at.as_str())),
    ];
    proof {
        assert(part_fields(parts@) =~= record_fields(r@));
        lemma_record_fields(r@);
    }
    object_of(parts)
}

impl State {
    /// Serializes to the on-disk JSON format. A state whose records' paths are
    /// relative and clean is decoded from what was encoded.
    pub fn encode(&self) -> (r: Vec<u8>)
        ensures
            r@ == json_pretty(state_json(self@, self.keys())).push(10),
            clean_paths(self@) ==> decoded(r@) == Result::<
                Map<KeyView, RecordView>,
                DecodeErrorView,
            >::Ok(self@),
    {
        proof {
            use_type_invariant(self);
        }
        let n: usize = self.len();
        let ghost keys = self.keys();
        let ghost items = records_json(self@, keys);
        let mut mounts: Vec<serde_json::Value> = Vec::new();
        let mut i: usize = 0;
        assert(crate::json::contents(mounts@) =~= items.take(0));
        while i < n
            invariant
                i <= n,
                n == keys.len(),
                keys == self.keys(),
                items == records_json(self@, keys),
                crate::json::contents(mounts@) == items.take(i as int),
                forall|j: int| 0 <= j < i ==> is_sound(self@[#[trigger] keys[j]]),
            decreases n - i,
        {
            let ghost before = crate::json::contents(mounts@);
            let item = encode_record(self.record_at(i));
            mounts.push(item);
            assert(crate::json::contents(mounts@) =~= before.push(items[i as int]));
            assert(items.take(i + 1) =~= items.take(i as int).push(items[i as int]));
            i += 1;
        }
        assert(items.take(items.len() as int) =~= items);
        let mut entries: Vec<(String, serde_json::Value)> = Vec::new();
        entries.push(("version".to_owned(), value(Node::Unsigned(STATE_VERSION))));
        entries.push(("mounts".to_owned(), value(Node::List(mounts))));
        let document = Node::Object(entries);
        proof {
            assert(document@->Object_0 =~= state_json(self@, keys)->Object_0);
            lemma_state_plain(self@, keys);
            if clean_paths(self@) {
                crate::order::lemma_ascending_distinct::<crate::state::RecordKey>(keys);
                lemma_state_round_trip(self@, keys);
            }
        }
        write_json(document)
    }
}

/// What a record must say under a key, where it has the key.
pub open spec fn is_field_of(key: Seq<char>, j: JsonView, r: RecordView) -> bool {
    &&& key == "group"@ ==> (j matches JsonView::Text(s) && parse_group(s) == Ok::<
        GroupIdView,
        NameError,
    >(r.group))
    &&& key == "name"@ ==> j == JsonView::Text(r.name)
    &&& key == "source_root"@ ==> (j matches JsonView::Text(s) && check_path(s) == Ok::<
        Seq<char>,
        crate::path::AbsPathErrorView,
    >(r.source_root))
    &&& key == "source"@ ==> j == JsonView::Text(r.source)
    &&& key == "target_root"@ ==> (j matches JsonView::Text(s) && check_path(s) == Ok::<
        Seq<char>,
        crate::path::AbsPathErrorView,
    >(r.target_root))
    &&& key == "target"@ ==> j == JsonView::Text(r.target)
    &&& key == "mnt_id"@ ==> j == JsonView::Unsigned(r.identity.mnt_id)
    &&& key == "mnt_id_unique"@ ==> match r.identity.mnt_id_unique {
        Some(n) => j == JsonView::Unsigned(n),
        None => j is Null,
    }
    &&& key == "root_dev_major"@ ==> j == JsonView::Unsigned(r.identity.root.dev_major as u64)
    &&& key == "root_dev_minor"@ ==> j == JsonView::Unsigned(r.identity.root.dev_minor as u64)
    &&& key == "root_ino"@ ==> j == JsonView::Unsigned(r.identity.root.ino)
    &&& key == "read_only"@ ==> match r.read_only {
        Some(b) => j == JsonView::Bool(b),
        None => j is Null,
    }
    &&& key == "noexec"@ ==> match r.noexec {
        Some(b) => j == JsonView::Bool(b),
        None => j is Null,
    }
    &&& key == "nosymfollow"@ ==> match r.nosymfollow {
        Some(b) => j == JsonView::Bool(b),
        None => j is Null,
    }
    &&& key == "created_at"@ ==> (j matches JsonView::Text(s) && instant_of(s) == Ok::<
        i128,
        Seq<char>,
    >(r.created_at))
}

/// Whether no two entries have the same key.
pub open spec fn unique_keys(entries: Entries) -> bool {
    forall|i: int, j: int|
        0 <= i < j < entries.len() ==> (#[trigger] entries[i]).0 != (#[trigger] entries[j]).0
}

/// In an object with unique keys, looking a key up gives its entry.
pub(crate) proof fn lemma_lookup_entry(entries: Entries, i: int)
    requires
        unique_keys(entries),
        0 <= i < entries.len(),
    ensures
        lookup(entries, entries[i].0) == Some(entries[i].1),
    decreases entries.len(),
{
    let front = entries.drop_last();
    if i < front.len() {
        assert(entries[i].0 != entries[entries.len() - 1].0);
        assert(front[i] == entries[i]);
        assert forall|a: int, b: int| 0 <= a < b < front.len() implies (#[trigger] front[a]).0 != (
        #[trigger] front[b]).0 by {
            assert(front[a] == entries[a] && front[b] == entries[b]);
        }
        lemma_lookup_entry(front, i);
    }
}

/// A key that no entry has is not found.
pub(crate) proof fn lemma_lookup_nothing(entries: Entries, key: Seq<char>)
    requires
        forall|i: int| 0 <= i < entries.len() ==> (#[trigger] entries[i]).0 != key,
    ensures
        lookup(entries, key) is None,
    decreases entries.len(),
{
    if entries.len() > 0 {
        let front = entries.drop_last();
        assert forall|i: int| 0 <= i < front.len() implies (#[trigger] front[i]).0 != key by {
            assert(front[i] == entries[i]);
        }
        assert(entries[entries.len() - 1].0 != key);
        lemma_lookup_nothing(front, key);
    }
}

/// Every field of a record is read from the entry of its own name, and from no
/// other: whatever the order of the entries is, what stands under a key is the
/// field of that name. An attribute that no entry tells stays untold.
pub proof fn law_record_fields_are_read_by_name(entries: Entries, i: int)
    requires
        unique_keys(entries),
        0 <= i < entries.len(),
    ensures
        read_record(JsonView::Object(entries)) matches Ok(r) ==> is_field_of(
            entries[i].0,
            entries[i].1,
            r,
        ),
{
    if read_record(JsonView::Object(entries)) is Ok {
        lemma_record_right(entries);
        lemma_lookup_entry(entries, i);
        let j = entries[i].1;
        if entries[i].0 == "name"@ {
            crate::name::lemma_check_text_same(j->Text_0);
        }
    }
}

/// A record without an entry for an attribute, or for the unique mount ID, does
/// not tell it.
pub proof fn law_absent_fields_are_untold(entries: Entries, key: Seq<char>)
    requires
        forall|i: int| 0 <= i < entries.len() ==> (#[trigger] entries[i]).0 != key,
    ensures
        read_record(JsonView::Object(entries)) matches Ok(r) ==> {
            &&& key == "read_only"@ ==> r.read_only is None
            &&& key == "noexec"@ ==> r.noexec is None
            &&& key == "nosymfollow"@ ==> r.nosymfollow is None
            &&& key == "mnt_id_unique"@ ==> r.identity.mnt_id_unique is None
        },
{
    lemma_lookup_nothing(entries, key);
}

proof fn lemma_collected_records(records: Seq<RecordView>)
    ensures
        collect(records) matches Ok(state) ==> {
            &&& forall|i: int|
                0 <= i < records.len() ==> {
                    let r = #[trigger] records[i];
                    let key = KeyView { group: r.group, name: r.name };
                    state.contains_key(key) && state[key] == r && clean_relative(r.source)
                        && clean_relative(r.target)
                }
            &&& forall|k: KeyView| #[trigger]
                state.contains_key(k) ==> exists|i: int|
                    0 <= i < records.len() && state[k] == #[trigger] records[i]
            &&& forall|i: int, j: int|
                0 <= i < j < records.len() ==> (#[trigger] records[i]).group != (
                #[trigger] records[j]).group || records[i].name != records[j].name
        },
    decreases records.len(),
{
    if records.len() > 0 && collect(records) is Ok {
        let front = records.drop_last();
        let last = records.last();
        lemma_collected_records(front);
        let before = collect(front)->Ok_0;
        let state = collect(records)->Ok_0;
        assert forall|i: int| 0 <= i < records.len() implies {
            let r = #[trigger] records[i];
            let key = KeyView { group: r.group, name: r.name };
            state.contains_key(key) && state[key] == r && clean_relative(r.source)
                && clean_relative(r.target)
        } by {
            if i < front.len() {
                assert(front[i] == records[i]);
            }
        }
        assert forall|k: KeyView| #[trigger] state.contains_key(k) implies exists|i: int|
            0 <= i < records.len() && state[k] == #[trigger] records[i] by {
            if k == last.key() {
                assert(records[records.len() - 1] == last);
            } else {
                assert(before.contains_key(k));
                let i = choose|i: int| 0 <= i < front.len() && before[k] == #[trigger] front[i];
                assert(records[i] == front[i]);
            }
        }
        assert forall|i: int, j: int| 0 <= i < j < records.len() implies (
        #[trigger] records[i]).group != (#[trigger] records[j]).group || records[i].name
            != records[j].name by {
            assert(front[i] == records[i]);
            if j < front.len() {
                assert(front[j] == records[j]);
            } else {
                let r = front[i];
                assert(before.contains_key(KeyView { group: r.group, name: r.name }));
            }
        }
    }
}

proof fn lemma_read_records(items: Seq<JsonView>)
    ensures
        read_records(items) matches Ok(records) ==> records.len() == items.len() && forall|i: int|
            0 <= i < items.len() ==> read_record(#[trigger] items[i]) == Ok::<
                RecordView,
                Seq<char>,
            >(records[i]),
    decreases items.len(),
{
    if items.len() > 0 && read_records(items) is Ok {
        let front = items.drop_last();
        lemma_read_records(front);
        assert forall|i: int| 0 <= i < items.len() implies read_record(#[trigger] items[i]) == Ok::<
            RecordView,
            Seq<char>,
        >(read_records(items)->Ok_0[i]) by {
            if i < front.len() {
                assert(front[i] == items[i]);
            }
        }
    }
}

proof fn lemma_read_document(entries: Entries, i: int)
    requires
        unique_keys(entries),
        0 <= i < entries.len(),
        entries[i].0 == "mounts"@,
        "mounts"@ != "version"@,
    ensures
        read_document(entries) matches Ok(found) ==> found is Some && read_mounts(entries[i].1)
            == Ok::<Seq<RecordView>, Seq<char>>(found->0),
    decreases entries.len(),
{
    let front = entries.drop_last();
    if i < front.len() && read_document(entries) is Ok {
        assert(front[i] == entries[i]);
        assert forall|a: int, b: int| 0 <= a < b < front.len() implies (#[trigger] front[a]).0 != (
        #[trigger] front[b]).0 by {
            assert(front[a] == entries[a] && front[b] == entries[b]);
        }
        lemma_read_document(front, i);
        assert(entries[i].0 != entries[entries.len() - 1].0);
    }
}

/// A state file holds just the records of its `mounts` list, each under its own
/// group and member, no member twice, and every path clean; and it is read only
/// if its `version` is 1.
pub proof fn law_states_hold_their_records(entries: Entries, i: int, items: Seq<JsonView>)
    requires
        unique_keys(entries),
        0 <= i < entries.len(),
    ensures
        decoded_json(JsonView::Object(entries)) matches Ok(state) ==> {
            &&& entries[i].0 == "version"@ ==> entries[i].1 == JsonView::Unsigned(1)
            &&& entries[i] == ("mounts"@, JsonView::List(items)) ==> {
                &&& forall|k: int|
                    0 <= k < items.len() ==> (read_record(#[trigger] items[k]) matches Ok(r)
                        && state.contains_key(KeyView { group: r.group, name: r.name })
                        && state[KeyView { group: r.group, name: r.name }] == r && clean_relative(
                        r.source,
                    ) && clean_relative(r.target))
                &&& forall|key: KeyView| #[trigger]
                    state.contains_key(key) ==> exists|k: int|
                        0 <= k < items.len() && read_record(#[trigger] items[k]) == Ok::<
                            RecordView,
                            Seq<char>,
                        >(state[key])
            }
        },
{
    if decoded_json(JsonView::Object(entries)) is Ok {
        let state = decoded_json(JsonView::Object(entries))->Ok_0;
        lemma_lookup_entry(entries, i);
        if entries[i] == ("mounts"@, JsonView::List(items)) {
            assert("mounts"@ != "version"@) by {
                reveal_strlit("version");
                reveal_strlit("mounts");
                assert("version"@.len() == 7 && "mounts"@.len() == 6);
            }
            lemma_read_document(entries, i);
            let records = read_records(items)->Ok_0;
            lemma_read_records(items);
            lemma_collected_records(records);
            assert forall|k: int| 0 <= k < items.len() implies (read_record(
                #[trigger] items[k],
            ) matches Ok(r) && state.contains_key(KeyView { group: r.group, name: r.name })
                && state[KeyView { group: r.group, name: r.name }] == r && clean_relative(r.source)
                && clean_relative(r.target)) by {
                assert(read_record(items[k]) == Ok::<RecordView, Seq<char>>(records[k]));
            }
            assert forall|key: KeyView| #[trigger] state.contains_key(key) implies exists|k: int|
                0 <= k < items.len() && read_record(#[trigger] items[k]) == Ok::<
                    RecordView,
                    Seq<char>,
                >(state[key]) by {
                let k = choose|k: int| 0 <= k < records.len() && state[key] == #[trigger] records[k];
                assert(read_record(items[k]) == Ok::<RecordView, Seq<char>>(records[k]));
            }
        }
    }
}

/// A file of another version is refused as such, whatever else it holds.
pub proof fn law_other_versions_are_refused(entries: Entries, i: int, version: u64)
    requires
        unique_keys(entries),
        0 <= i < entries.len(),
        entries[i] == ("version"@, JsonView::Unsigned(version)),
        version != 1,
    ensures
        decoded_json(JsonView::Object(entries)) == Err::<Map<KeyView, RecordView>, DecodeErrorView>(
            DecodeErrorView::UnsupportedVersion(version),
        ),
{
    lemma_lookup_entry(entries, i);
}

} // verus!
