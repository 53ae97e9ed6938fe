//! Configuration files as written.
//!
//! Settings go by their keys: required keys have to be there, and keys that are
//! not known are refused. The daemon settings and those of a group may also be
//! written as a list of all of their values, in order; what follows in such a
//! list is passed over.
use vstd::prelude::*;
use vstd::string::*;

use crate::config::{document_views, has_error, issue_views, load_documents, parsed_of, unparsed_of, validated, Document, DocumentView, LoadError, Loaded, RawDaemon, RawDaemonView, RawFile, RawFileView, RawGroup, RawGroupView};
use crate::document::{error_in, find, flag_in, lemma_lookup_entry, lemma_lookup_nothing, lemma_none_missing, missing, missing_error, node_entries, part_entries, read_flag, read_text, read_u64, text_in, u64_in, unique_keys, unknown, unknown_field};
use crate::json::{invalid_type, read_toml, toml_read, type_error, JsonView, Node};
use crate::object::{invalid_length, lemma_lookup_there, length_error, list_entries, listed, lookup, name_texts, Entries};
use crate::order::Table;
use crate::sets::{RawSet, RawSetView};
use crate::text::same;

verus! {

/// The first entry that is wrong on its own, as `check` says.
pub open spec fn first_error(
    entries: Entries,
    check: spec_fn(Seq<char>, JsonView) -> Option<Seq<char>>,
) -> Option<Seq<char>>
    decreases entries.len(),
{
    if entries.len() == 0 {
        None
    } else {
        match first_error(entries.drop_last(), check) {
            Some(e) => Some(e),
            None => check(entries.last().0, entries.last().1),
        }
    }
}

/// What is wrong with the first entries stays wrong.
proof fn lemma_first_error_stays(
    entries: Entries,
    check: spec_fn(Seq<char>, JsonView) -> Option<Seq<char>>,
    n: int,
)
    requires
        0 <= n <= entries.len(),
        first_error(entries.take(n), check) is Some,
    ensures
        first_error(entries, check) == first_error(entries.take(n), check),
    decreases entries.len(),
{
    if n == entries.len() {
        assert(entries.take(n) =~= entries);
    } else {
        assert(entries.drop_last().take(n) =~= entries.take(n));
        lemma_first_error_stays(entries.drop_last(), check, n);
    }
}

/// Entries without errors are right one by one.
proof fn lemma_first_error_none(
    entries: Entries,
    check: spec_fn(Seq<char>, JsonView) -> Option<Seq<char>>,
    key: Seq<char>,
)
    requires
        first_error(entries, check) is None,
    ensures
        lookup(entries, key) matches Some(j) ==> check(key, j) is None,
    decreases entries.len(),
{
    if entries.len() > 0 && entries.last().0 != key {
        lemma_first_error_none(entries.drop_last(), check, key);
    }
}

/// The text under a key that may be missing.
pub open spec fn optional_text_at(entries: Entries, key: Seq<char>) -> Option<Seq<char>> {
    match lookup(entries, key) {
        Some(j) => Some(read_text(j)->Ok_0),
        None => None,
    }
}

/// The truth value under a key that may be missing.
pub open spec fn optional_flag_at(entries: Entries, key: Seq<char>) -> Option<bool> {
    match lookup(entries, key) {
        Some(j) => Some(read_flag(j)->Ok_0),
        None => None,
    }
}

fn some_text(entries: &Vec<(String, Node)>, key: &str) -> (r: Result<Option<String>, String>)
    ensures
        match r {
            Ok(s) => crate::config::optional_text(s) == optional_text_at(
                node_entries(entries@),
                key@,
            ),
            Err(_) => lookup(node_entries(entries@), key@) matches Some(j) && read_text(j) is Err,
        },
{
    match find(entries, key) {
        Some(n) => match text_in(n) {
            Ok(s) => Ok(Some(s)),
            Err(e) => Err(e),
        },
        None => Ok(None),
    }
}

fn some_flag(entries: &Vec<(String, Node)>, key: &str) -> (r: Result<Option<bool>, String>)
    ensures
        match r {
            Ok(b) => b == optional_flag_at(node_entries(entries@), key@),
            Err(_) => lookup(node_entries(entries@), key@) matches Some(j) && read_flag(j) is Err,
        },
{
    match find(entries, key) {
        Some(n) => match flag_in(n) {
            Ok(b) => Ok(Some(b)),
            Err(e) => Err(e),
        },
        None => Ok(None),
    }
}

fn some_number(entries: &Vec<(String, Node)>, key: &str) -> (r: Result<Option<u64>, String>)
    ensures
        match r {
            Ok(b) => b == (match lookup(node_entries(entries@), key@) {
                Some(j) => Some(read_u64(j)->Ok_0),
                None => None,
            }),
            Err(_) => lookup(node_entries(entries@), key@) matches Some(j) && read_u64(j) is Err,
        },
{
    match find(entries, key) {
        Some(n) => match u64_in(n) {
            Ok(b) => Ok(Some(b)),
            Err(e) => Err(e),
        },
        None => Ok(None),
    }
}

fn needed_text(entries: &Vec<(String, Node)>, key: &str) -> (r: Result<String, String>)
    ensures
        match r {
            Ok(s) => lookup(node_entries(entries@), key@) matches Some(j) && read_text(j) == Result::<
                Seq<char>,
                Seq<char>,
            >::Ok(s@),
            Err(_) => match lookup(node_entries(entries@), key@) {
                Some(j) => read_text(j) is Err,
                None => true,
            },
        },
{
    match find(entries, key) {
        Some(n) => text_in(n),
        None => Err(String::new()),
    }
}

// The daemon settings.

/// The settings of the daemon.
pub const DAEMON_FIELDS: &'static str = "one of `user`, `state_dir`, `resync_interval_secs`";

/// What is wrong with a daemon setting, on its own.
pub open spec fn daemon_entry_error(key: Seq<char>, j: JsonView) -> Option<Seq<char>> {
    if key == "user"@ || key == "state_dir"@ {
        error_in(read_text(j))
    } else if key == "resync_interval_secs"@ {
        error_in(read_u64(j))
    } else {
        Some(unknown_field(key, DAEMON_FIELDS@))
    }
}

/// What is wrong with daemon settings, one by one.
pub open spec fn daemon_check() -> spec_fn(Seq<char>, JsonView) -> Option<Seq<char>> {
    |key: Seq<char>, j: JsonView| daemon_entry_error(key, j)
}

/// The daemon settings in entries that are all right.
pub open spec fn daemon_in_entries(entries: Entries) -> RawDaemonView {
    RawDaemonView {
        user: optional_text_at(entries, "user"@),
        state_dir: optional_text_at(entries, "state_dir"@),
        resync_interval_secs: match lookup(entries, "resync_interval_secs"@) {
            Some(j) => Some(read_u64(j)->Ok_0),
            None => None,
        },
    }
}

/// The daemon settings, in order.
pub open spec fn listed_daemon() -> Seq<Seq<char>> {
    seq!["user"@, "state_dir"@, "resync_interval_secs"@]
}

/// The daemon settings that a value stands for.
pub open spec fn read_daemon(j: JsonView) -> Result<RawDaemonView, Seq<char>> {
    match j {
        JsonView::Object(entries) => match first_error(entries, daemon_check()) {
            Some(e) => Err(e),
            None => Ok(daemon_in_entries(entries)),
        },
        JsonView::List(items) => {
            let entries = listed(listed_daemon(), items);
            match first_error(entries, daemon_check()) {
                Some(e) => Err(e),
                None => if items.len() < 3 {
                    Err(invalid_length(items.len(), "struct RawDaemon with 3 elements"@))
                } else {
                    Ok(daemon_in_entries(entries))
                },
            }
        },
        _ => Err(invalid_type(j, "struct RawDaemon"@)),
    }
}

fn check_daemon_entry(key: &str, n: &Node) -> (r: Result<(), String>)
    ensures
        match r {
            Ok(_) => daemon_entry_error(key@, n@) is None,
            Err(e) => daemon_entry_error(key@, n@) == Some(e@),
        },
{
    if same(key, "user") || same(key, "state_dir") {
        match text_in(n) {
            Ok(_) => Ok(()),
            Err(e) => Err(e),
        }
    } else if same(key, "resync_interval_secs") {
        match u64_in(n) {
            Ok(_) => Ok(()),
            Err(e) => Err(e),
        }
    } else {
        Err(unknown(key, DAEMON_FIELDS))
    }
}

fn check_daemon(entries: &Vec<(String, Node)>) -> (r: Result<(), String>)
    ensures
        match r {
            Ok(_) => first_error(node_entries(entries@), daemon_check()) is None,
            Err(e) => first_error(node_entries(entries@), daemon_check()) == Some(e@),
        },
{
    let ghost all = node_entries(entries@);
    let mut i: usize = 0;
    assert(all.take(0) =~= Seq::empty());
    while i < entries.len()
        invariant
            i <= entries@.len(),
            all == node_entries(entries@),
            first_error(all.take(i as int), daemon_check()) is None,
        decreases entries@.len() - i,
    {
        let entry = &entries[i];
        let ghost head = all.take(i + 1);
        proof {
            assert(head.drop_last() =~= all.take(i as int));
            assert(head.last() == all[i as int]);
            assert(all[i as int] == (entry.0@, entry.1@));
        }
        if let Err(e) = check_daemon_entry(entry.0.as_str(), &entry.1) {
            proof {
                lemma_first_error_stays(all, daemon_check(), i + 1);
            }
            return Err(e);
        }
        i += 1;
    }
    assert(all.take(all.len() as int) =~= all);
    Ok(())
}

proof fn lemma_daemon_fields()
    ensures
        "resync_interval_secs"@ != "user"@,
        "resync_interval_secs"@ != "state_dir"@,
{
    reveal_strlit("resync_interval_secs");
    reveal_strlit("user");
    reveal_strlit("state_dir");
    assert("user"@.len() == 4 && "state_dir"@.len() == 9 && "resync_interval_secs"@.len() == 20);
}

fn daemon_of_entries(entries: &Vec<(String, Node)>) -> (r: Result<RawDaemon, String>)
    requires
        first_error(node_entries(entries@), daemon_check()) is None,
    ensures
        r matches Ok(d) && d@ == daemon_in_entries(node_entries(entries@)),
{
    proof {
        let all = node_entries(entries@);
        lemma_daemon_fields();
        lemma_first_error_none(all, daemon_check(), "user"@);
        lemma_first_error_none(all, daemon_check(), "state_dir"@);
        lemma_first_error_none(all, daemon_check(), "resync_interval_secs"@);
    }
    let user = match some_text(entries, "user") {
        Ok(x) => x,
        Err(e) => return Err(e),
    };
    let state_dir = match some_text(entries, "state_dir") {
        Ok(x) => x,
        Err(e) => return Err(e),
    };
    let resync_interval_secs = match some_number(entries, "resync_interval_secs") {
        Ok(x) => x,
        Err(e) => return Err(e),
    };
    Ok(RawDaemon { user, state_dir, resync_interval_secs })
}

fn daemon(n: Node) -> (r: Result<RawDaemon, String>)
    ensures
        match r {
            Ok(d) => read_daemon(n@) == Result::<RawDaemonView, Seq<char>>::Ok(d@),
            Err(e) => read_daemon(n@) == Result::<RawDaemonView, Seq<char>>::Err(e@),
        },
{
    match n {
        Node::Object(values) => {
            let entries = part_entries(values);
            if let Err(e) = check_daemon(&entries) {
                return Err(e);
            }
            daemon_of_entries(&entries)
        },
        Node::List(values) => {
            let names: Vec<&'static str> = vec!["user", "state_dir", "resync_interval_secs"];
            assert(name_texts(names@) =~= listed_daemon());
            let len: usize = values.len();
            let ghost items = crate::json::contents(values@);
            let entries = list_entries(&names, values);
            assert(node_entries(entries@) =~= listed(listed_daemon(), items));
            if let Err(e) = check_daemon(&entries) {
                return Err(e);
            }
            if len < 3 {
                return Err(length_error(len, "struct RawDaemon with 3 elements"));
            }
            daemon_of_entries(&entries)
        },
        other => Err(type_error(&other, "struct RawDaemon")),
    }
}

// Groups.

/// The settings of a group.
pub const GROUP_FIELDS: &'static str = "one of `source_root`, `source`, `target_root`, `target`, `membership`, `read_only`, `noexec`, `nosymfollow`";

/// What is wrong with a group setting, on its own.
pub open spec fn group_entry_error(key: Seq<char>, j: JsonView) -> Option<Seq<char>> {
    if key == "source_root"@ || key == "source"@ || key == "target_root"@ || key == "target"@ || key
        == "membership"@ {
        error_in(read_text(j))
    } else if key == "read_only"@ || key == "noexec"@ || key == "nosymfollow"@ {
        error_in(read_flag(j))
    } else {
        Some(unknown_field(key, GROUP_FIELDS@))
    }
}

/// What is wrong with group settings, one by one.
pub open spec fn group_check() -> spec_fn(Seq<char>, JsonView) -> Option<Seq<char>> {
    |key: Seq<char>, j: JsonView| group_entry_error(key, j)
}

/// The settings that a group has to have, in order.
pub open spec fn group_fields() -> Seq<Seq<char>> {
    seq!["source_root"@, "source"@, "target_root"@, "target"@, "membership"@]
}

/// The group in entries that are all right.
pub open spec fn group_in_entries(entries: Entries) -> RawGroupView {
    RawGroupView {
        source_root: read_text(lookup(entries, "source_root"@)->0)->Ok_0,
        source: read_text(lookup(entries, "source"@)->0)->Ok_0,
        target_root: read_text(lookup(entries, "target_root"@)->0)->Ok_0,
        target: read_text(lookup(entries, "target"@)->0)->Ok_0,
        membership: read_text(lookup(entries, "membership"@)->0)->Ok_0,
        read_only: optional_flag_at(entries, "read_only"@),
        noexec: optional_flag_at(entries, "noexec"@),
        nosymfollow: optional_flag_at(entries, "nosymfollow"@),
    }
}

/// All settings of a group, in order.
pub open spec fn listed_group() -> Seq<Seq<char>> {
    seq![
        "source_root"@,
        "source"@,
        "target_root"@,
        "target"@,
        "membership"@,
        "read_only"@,
        "noexec"@,
        "nosymfollow"@,
    ]
}

/// The group that a value stands for: every setting is right on its own, and
/// none is missing.
pub open spec fn read_raw_group(j: JsonView) -> Result<RawGroupView, Seq<char>> {
    match j {
        JsonView::List(items) => {
            let entries = listed(listed_group(), items);
            match first_error(entries, group_check()) {
                Some(e) => Err(e),
                None => if items.len() < 8 {
                    Err(invalid_length(items.len(), "struct RawGroup with 8 elements"@))
                } else {
                    Ok(group_in_entries(entries))
                },
            }
        },
        JsonView::Object(entries) => match first_error(entries, group_check()) {
            Some(e) => Err(e),
            None => match missing_error(entries, group_fields()) {
                Some(e) => Err(e),
                None => Ok(group_in_entries(entries)),
            },
        },
        _ => Err(invalid_type(j, "struct RawGroup"@)),
    }
}

fn check_group_entry(key: &str, n: &Node) -> (r: Result<(), String>)
    ensures
        match r {
            Ok(_) => group_entry_error(key@, n@) is None,
            Err(e) => group_entry_error(key@, n@) == Some(e@),
        },
{
    if same(key, "source_root") || same(key, "source") || same(key, "target_root") || same(
        key,
        "target",
    ) || same(key, "membership") {
        match text_in(n) {
            Ok(_) => Ok(()),
            Err(e) => Err(e),
        }
    } else if same(key, "read_only") || same(key, "noexec") || same(key, "nosymfollow") {
        match flag_in(n) {
            Ok(_) => Ok(()),
            Err(e) => Err(e),
        }
    } else {
        Err(unknown(key, GROUP_FIELDS))
    }
}

fn check_group(entries: &Vec<(String, Node)>) -> (r: Result<(), String>)
    ensures
        match r {
            Ok(_) => first_error(node_entries(entries@), group_check()) is None,
            Err(e) => first_error(node_entries(entries@), group_check()) == Some(e@),
        },
{
    let ghost all = node_entries(entries@);
    let mut i: usize = 0;
    assert(all.take(0) =~= Seq::empty());
    while i < entries.len()
        invariant
            i <= entries@.len(),
            all == node_entries(entries@),
            first_error(all.take(i as int), group_check()) is None,
        decreases entries@.len() - i,
    {
        let entry = &entries[i];
        let ghost head = all.take(i + 1);
        proof {
            assert(head.drop_last() =~= all.take(i as int));
            assert(head.last() == all[i as int]);
            assert(all[i as int] == (entry.0@, entry.1@));
        }
        if let Err(e) = check_group_entry(entry.0.as_str(), &entry.1) {
            proof {
                lemma_first_error_stays(all, group_check(), i + 1);
            }
            return Err(e);
        }
        i += 1;
    }
    assert(all.take(all.len() as int) =~= all);
    Ok(())
}

proof fn lemma_group_fields()
    ensures
        "read_only"@ != "source_root"@,
        "read_only"@ != "source"@,
        "read_only"@ != "target_root"@,
        "read_only"@ != "target"@,
        "read_only"@ != "membership"@,
        "noexec"@ != "source_root"@,
        "noexec"@ != "source"@,
        "noexec"@ != "target_root"@,
        "noexec"@ != "target"@,
        "noexec"@ != "membership"@,
        "nosymfollow"@ != "source_root"@,
        "nosymfollow"@ != "source"@,
        "nosymfollow"@ != "target_root"@,
        "nosymfollow"@ != "target"@,
        "nosymfollow"@ != "membership"@,
{
    reveal_strlit("source_root");
    reveal_strlit("source");
    reveal_strlit("target_root");
    reveal_strlit("target");
    reveal_strlit("membership");
    reveal_strlit("read_only");
    reveal_strlit("noexec");
    reveal_strlit("nosymfollow");
    assert("source_root"@.len() == 11);
    assert("source"@.len() == 6);
    assert("target_root"@.len() == 11);
    assert("target"@.len() == 6);
    assert("membership"@.len() == 10);
    assert("read_only"@.len() == 9);
    assert("noexec"@.len() == 6);
    assert("nosymfollow"@.len() == 11);
    assert("noexec"@[0] != "source"@[0]);
    assert("noexec"@[0] != "target"@[0]);
    assert("nosymfollow"@[0] != "source_root"@[0]);
    assert("nosymfollow"@[0] != "target_root"@[0]);
}

/// No setting that has to be there is missing.
proof fn lemma_group_complete(entries: Entries)
    requires
        first_error(entries, group_check()) is None,
        missing_error(entries, group_fields()) is None,
    ensures
        lookup(entries, "source_root"@) matches Some(j) && read_text(j) is Ok,
        lookup(entries, "source"@) matches Some(j) && read_text(j) is Ok,
        lookup(entries, "target_root"@) matches Some(j) && read_text(j) is Ok,
        lookup(entries, "target"@) matches Some(j) && read_text(j) is Ok,
        lookup(entries, "membership"@) matches Some(j) && read_text(j) is Ok,
        lookup(entries, "read_only"@) matches Some(j) ==> read_flag(j) is Ok,
        lookup(entries, "noexec"@) matches Some(j) ==> read_flag(j) is Ok,
        lookup(entries, "nosymfollow"@) matches Some(j) ==> read_flag(j) is Ok,
{
    let fields = group_fields();
    lemma_group_fields();
    crate::document::lemma_none_missing(entries, fields, 0);
    lemma_first_error_none(entries, group_check(), "source_root"@);
    crate::document::lemma_none_missing(entries, fields, 1);
    lemma_first_error_none(entries, group_check(), "source"@);
    crate::document::lemma_none_missing(entries, fields, 2);
    lemma_first_error_none(entries, group_check(), "target_root"@);
    crate::document::lemma_none_missing(entries, fields, 3);
    lemma_first_error_none(entries, group_check(), "target"@);
    crate::document::lemma_none_missing(entries, fields, 4);
    lemma_first_error_none(entries, group_check(), "membership"@);
    lemma_first_error_none(entries, group_check(), "read_only"@);
    lemma_first_error_none(entries, group_check(), "noexec"@);
    lemma_first_error_none(entries, group_check(), "nosymfollow"@);
}

fn check_group_missing(entries: &Vec<(String, Node)>) -> (r: Result<(), String>)
    ensures
        match r {
            Ok(_) => missing_error(node_entries(entries@), group_fields()) is None,
            Err(e) => missing_error(node_entries(entries@), group_fields()) == Some(e@),
        },
{
    let fields: Vec<&'static str> = vec![
        "source_root",
        "source",
        "target_root",
        "target",
        "membership",
    ];
    let ghost all = group_fields();
    let ghost views = node_entries(entries@);
    assert(fields@.len() == all.len());
    assert forall|k: int| 0 <= k < all.len() implies all[k] == (#[trigger] fields@[k])@ by {}
    let mut i: usize = 0;
    assert(all.take(0) =~= Seq::empty());
    while i < fields.len()
        invariant
            i <= fields@.len(),
            fields@.len() == all.len(),
            views == node_entries(entries@),
            all == group_fields(),
            forall|k: int| 0 <= k < all.len() ==> all[k] == (#[trigger] fields@[k])@,
            missing_error(views, all.take(i as int)) is None,
        decreases fields@.len() - i,
    {
        let field = fields[i];
        let ghost head = all.take(i + 1);
        proof {
            assert(head.drop_last() =~= all.take(i as int));
            assert(head.last() == fields@[i as int]@);
        }
        match find(entries, field) {
            Some(_) => {},
            None => {
                proof {
                    crate::document::lemma_missing_stays(views, all, i + 1);
                }
                return Err(missing(field));
            },
        }
        i += 1;
    }
    assert(all.take(all.len() as int) =~= all);
    Ok(())
}

fn group_of_entries(entries: &Vec<(String, Node)>) -> (r: Result<RawGroup, String>)
    requires
        first_error(node_entries(entries@), group_check()) is None,
        missing_error(node_entries(entries@), group_fields()) is None,
    ensures
        r matches Ok(g) && g@ == group_in_entries(node_entries(entries@)),
{
    proof {
        lemma_group_complete(node_entries(entries@));
    }
    let source_root = match needed_text(entries, "source_root") {
        Ok(x) => x,
        Err(e) => return Err(e),
    };
    let source = match needed_text(entries, "source") {
        Ok(x) => x,
        Err(e) => return Err(e),
    };
    let target_root = match needed_text(entries, "target_root") {
        Ok(x) => x,
        Err(e) => return Err(e),
    };
    let target = match needed_text(entries, "target") {
        Ok(x) => x,
        Err(e) => return Err(e),
    };
    let membership = match needed_text(entries, "membership") {
        Ok(x) => x,
        Err(e) => return Err(e),
    };
    let read_only = match some_flag(entries, "read_only") {
        Ok(x) => x,
        Err(e) => return Err(e),
    };
    let noexec = match some_flag(entries, "noexec") {
        Ok(x) => x,
        Err(e) => return Err(e),
    };
    let nosymfollow = match some_flag(entries, "nosymfollow") {
        Ok(x) => x,
        Err(e) => return Err(e),
    };
    Ok(
        RawGroup {
            source_root,
            source,
            target_root,
            target,
            membership,
            read_only,
            noexec,
            nosymfollow,
        },
    )
}

/// A list of all values leaves out no setting that has to be there.
proof fn lemma_listed_group_complete(items: Seq<JsonView>)
    requires
        items.len() >= 8,
    ensures
        missing_error(listed(listed_group(), items), group_fields()) is None,
{
    let entries = listed(listed_group(), items);
    let fields = group_fields();
    assert forall|i: int| 0 <= i < fields.len() implies lookup(
        entries,
        #[trigger] fields[i],
    ) is Some by {
        assert(listed_group()[i] == fields[i]);
        assert(entries[i].0 == fields[i]);
        lemma_lookup_there(entries, i);
    }
    crate::document::lemma_fields_there(entries, fields);
}

fn raw_group(n: Node) -> (r: Result<RawGroup, String>)
    ensures
        match r {
            Ok(d) => read_raw_group(n@) == Result::<RawGroupView, Seq<char>>::Ok(d@),
            Err(e) => read_raw_group(n@) == Result::<RawGroupView, Seq<char>>::Err(e@),
        },
{
    match n {
        Node::Object(values) => {
            let entries = part_entries(values);
            if let Err(e) = check_group(&entries) {
                return Err(e);
            }
            if let Err(e) = check_group_missing(&entries) {
                return Err(e);
            }
            group_of_entries(&entries)
        },
        Node::List(values) => {
            let names: Vec<&'static str> = vec![
                "source_root",
                "source",
                "target_root",
                "target",
                "membership",
                "read_only",
                "noexec",
                "nosymfollow",
            ];
            assert(name_texts(names@) =~= listed_group());
            let len: usize = values.len();
            let ghost items = crate::json::contents(values@);
            let entries = list_entries(&names, values);
            assert(node_entries(entries@) =~= listed(listed_group(), items));
            if let Err(e) = check_group(&entries) {
                return Err(e);
            }
            if len < 8 {
                return Err(length_error(len, "struct RawGroup with 8 elements"));
            }
            proof {
                lemma_listed_group_complete(items);
            }
            group_of_entries(&entries)
        },
        other => Err(type_error(&other, "struct RawGroup")),
    }
}

/// The groups that entries stand for.
pub open spec fn read_group_entries(entries: Entries) -> Result<
    Map<Seq<char>, RawGroupView>,
    Seq<char>,
>
    decreases entries.len(),
{
    if entries.len() == 0 {
        Ok(Map::empty())
    } else {
        match read_group_entries(entries.drop_last()) {
            Err(e) => Err(e),
            Ok(groups) => match read_raw_group(entries.last().1) {
                Err(e) => Err(e),
                Ok(group) => Ok(groups.insert(entries.last().0, group)),
            },
        }
    }
}

/// The groups that a value stands for.
pub open spec fn read_groups(j: JsonView) -> Result<Map<Seq<char>, RawGroupView>, Seq<char>> {
    match j {
        JsonView::Object(entries) => read_group_entries(entries),
        _ => Err(invalid_type(j, "a map"@)),
    }
}

proof fn lemma_groups_error_stays(entries: Entries, n: int)
    requires
        0 <= n <= entries.len(),
        read_group_entries(entries.take(n)) is Err,
    ensures
        read_group_entries(entries) == read_group_entries(entries.take(n)),
    decreases entries.len(),
{
    if n == entries.len() {
        assert(entries.take(n) =~= entries);
    } else {
        assert(entries.drop_last().take(n) =~= entries.take(n));
        lemma_groups_error_stays(entries.drop_last(), n);
    }
}

fn groups(n: Node) -> (r: Result<Table<String, RawGroup>, String>)
    ensures
        match r {
            Ok(d) => read_groups(n@) == Result::<Map<Seq<char>, RawGroupView>, Seq<char>>::Ok(d@),
            Err(e) => read_groups(n@) == Result::<Map<Seq<char>, RawGroupView>, Seq<char>>::Err(e@),
        },
{
    let entries = match n {
        Node::Object(values) => part_entries(values),
        other => return Err(type_error(&other, "a map")),
    };
    let ghost all = node_entries(entries@);
    let mut out: Table<String, RawGroup> = Table::new();
    assert(all.take(0) =~= Seq::empty());
    for entry in it: entries
        invariant
            it.seq() == entries@,
            all == node_entries(entries@),
            n@ == JsonView::Object(all),
            read_group_entries(all.take(it.index() as int)) == Result::<
                Map<Seq<char>, RawGroupView>,
                Seq<char>,
            >::Ok(out@),
    {
        let ghost k = it.index() as int;
        let ghost head = all.take(k + 1);
        proof {
            assert(all[k] == (entry.0@, entry.1@));
            assert(head.drop_last() =~= all.take(k));
            assert(head.last() == all[k]);
        }
        let (key, inner) = entry;
        match raw_group(inner) {
            Ok(group) => {
                let _ = out.insert(key, group);
            },
            Err(e) => {
                proof {
                    lemma_groups_error_stays(all, k + 1);
                }
                return Err(e);
            },
        }
    }
    assert(all.take(all.len() as int) =~= all);
    Ok(out)
}

// Group sets.

/// The settings of a group set.
pub const SET_FIELDS: &'static str = "one of `source_root`, `source`, `target_root`, `target`, `membership_root`, `read_only`, `noexec`, `nosymfollow`";

/// What is wrong with a group set setting, on its own.
pub open spec fn set_entry_error(key: Seq<char>, j: JsonView) -> Option<Seq<char>> {
    if key == "source_root"@ || key == "source"@ || key == "target_root"@ || key == "target"@ || key
        == "membership_root"@ {
        error_in(read_text(j))
    } else if key == "read_only"@ || key == "noexec"@ || key == "nosymfollow"@ {
        error_in(read_flag(j))
    } else {
        Some(unknown_field(key, SET_FIELDS@))
    }
}

/// What is wrong with group set settings, one by one.
pub open spec fn set_check() -> spec_fn(Seq<char>, JsonView) -> Option<Seq<char>> {
    |key: Seq<char>, j: JsonView| set_entry_error(key, j)
}

/// The settings that a group set has to have, in order.
pub open spec fn set_fields() -> Seq<Seq<char>> {
    seq!["source_root"@, "source"@, "target_root"@, "target"@, "membership_root"@]
}

/// The group set in entries that are all right.
pub open spec fn set_in_entries(entries: Entries) -> RawSetView {
    RawSetView {
        source_root: read_text(lookup(entries, "source_root"@)->0)->Ok_0,
        source: read_text(lookup(entries, "source"@)->0)->Ok_0,
        target_root: read_text(lookup(entries, "target_root"@)->0)->Ok_0,
        target: read_text(lookup(entries, "target"@)->0)->Ok_0,
        membership_root: read_text(lookup(entries, "membership_root"@)->0)->Ok_0,
        read_only: optional_flag_at(entries, "read_only"@),
        noexec: optional_flag_at(entries, "noexec"@),
        nosymfollow: optional_flag_at(entries, "nosymfollow"@),
    }
}

/// The group set that a value stands for: every setting is right on its own, and
/// none is missing.
pub open spec fn read_raw_set(j: JsonView) -> Result<RawSetView, Seq<char>> {
    match j {
        JsonView::Object(entries) => match first_error(entries, set_check()) {
            Some(e) => Err(e),
            None => match missing_error(entries, set_fields()) {
                Some(e) => Err(e),
                None => Ok(set_in_entries(entries)),
            },
        },
        _ => Err(invalid_type(j, "struct RawSet"@)),
    }
}

fn check_set_entry(key: &str, n: &Node) -> (r: Result<(), String>)
    ensures
        match r {
            Ok(_) => set_entry_error(key@, n@) is None,
            Err(e) => set_entry_error(key@, n@) == Some(e@),
        },
{
    if same(key, "source_root") || same(key, "source") || same(key, "target_root") || same(
        key,
        "target",
    ) || same(key, "membership_root") {
        match text_in(n) {
            Ok(_) => Ok(()),
            Err(e) => Err(e),
        }
    } else if same(key, "read_only") || same(key, "noexec") || same(key, "nosymfollow") {
        match flag_in(n) {
            Ok(_) => Ok(()),
            Err(e) => Err(e),
        }
    } else {
        Err(unknown(key, SET_FIELDS))
    }
}

fn check_set(entries: &Vec<(String, Node)>) -> (r: Result<(), String>)
    ensures
        match r {
            Ok(_) => first_error(node_entries(entries@), set_check()) is None,
            Err(e) => first_error(node_entries(entries@), set_check()) == Some(e@),
        },
{
    let ghost all = node_entries(entries@);
    let mut i: usize = 0;
    assert(all.take(0) =~= Seq::empty());
    while i < entries.len()
        invariant
            i <= entries@.len(),
            all == node_entries(entries@),
            first_error(all.take(i as int), set_check()) is None,
        decreases entries@.len() - i,
    {
        let entry = &entries[i];
        let ghost head = all.take(i + 1);
        proof {
            assert(head.drop_last() =~= all.take(i as int));
            assert(head.last() == all[i as int]);
            assert(all[i as int] == (entry.0@, entry.1@));
        }
        if let Err(e) = check_set_entry(entry.0.as_str(), &entry.1) {
            proof {
                lemma_first_error_stays(all, set_check(), i + 1);
            }
            return Err(e);
        }
        i += 1;
    }
    assert(all.take(all.len() as int) =~= all);
    Ok(())
}

proof fn lemma_set_fields()
    ensures
        "read_only"@ != "source_root"@,
        "read_only"@ != "source"@,
        "read_only"@ != "target_root"@,
        "read_only"@ != "target"@,
        "read_only"@ != "membership_root"@,
        "noexec"@ != "source_root"@,
        "noexec"@ != "source"@,
        "noexec"@ != "target_root"@,
        "noexec"@ != "target"@,
        "noexec"@ != "membership_root"@,
        "nosymfollow"@ != "source_root"@,
        "nosymfollow"@ != "source"@,
        "nosymfollow"@ != "target_root"@,
        "nosymfollow"@ != "target"@,
        "nosymfollow"@ != "membership_root"@,
{
    reveal_strlit("source_root");
    reveal_strlit("source");
    reveal_strlit("target_root");
    reveal_strlit("target");
    reveal_strlit("membership_root");
    reveal_strlit("read_only");
    reveal_strlit("noexec");
    reveal_strlit("nosymfollow");
    assert("source_root"@.len() == 11);
    assert("source"@.len() == 6);
    assert("target_root"@.len() == 11);
    assert("target"@.len() == 6);
    assert("membership_root"@.len() == 15);
    assert("read_only"@.len() == 9);
    assert("noexec"@.len() == 6);
    assert("nosymfollow"@.len() == 11);
    assert("noexec"@[0] != "source"@[0]);
    assert("noexec"@[0] != "target"@[0]);
    assert("nosymfollow"@[0] != "source_root"@[0]);
    assert("nosymfollow"@[0] != "target_root"@[0]);
}

/// No setting that has to be there is missing.
proof fn lemma_set_complete(entries: Entries)
    requires
        first_error(entries, set_check()) is None,
        missing_error(entries, set_fields()) is None,
    ensures
        lookup(entries, "source_root"@) matches Some(j) && read_text(j) is Ok,
        lookup(entries, "source"@) matches Some(j) && read_text(j) is Ok,
        lookup(entries, "target_root"@) matches Some(j) && read_text(j) is Ok,
        lookup(entries, "target"@) matches Some(j) && read_text(j) is Ok,
        lookup(entries, "membership_root"@) matches Some(j) && read_text(j) is Ok,
        lookup(entries, "read_only"@) matches Some(j) ==> read_flag(j) is Ok,
        lookup(entries, "noexec"@) matches Some(j) ==> read_flag(j) is Ok,
        lookup(entries, "nosymfollow"@) matches Some(j) ==> read_flag(j) is Ok,
{
    let fields = set_fields();
    lemma_set_fields();
    crate::document::lemma_none_missing(entries, fields, 0);
    lemma_first_error_none(entries, set_check(), "source_root"@);
    crate::document::lemma_none_missing(entries, fields, 1);
    lemma_first_error_none(entries, set_check(), "source"@);
    crate::document::lemma_none_missing(entries, fields, 2);
    lemma_first_error_none(entries, set_check(), "target_root"@);
    crate::document::lemma_none_missing(entries, fields, 3);
    lemma_first_error_none(entries, set_check(), "target"@);
    crate::document::lemma_none_missing(entries, fields, 4);
    lemma_first_error_none(entries, set_check(), "membership_root"@);
    lemma_first_error_none(entries, set_check(), "read_only"@);
    lemma_first_error_none(entries, set_check(), "noexec"@);
    lemma_first_error_none(entries, set_check(), "nosymfollow"@);
}

fn check_set_missing(entries: &Vec<(String, Node)>) -> (r: Result<(), String>)
    ensures
        match r {
            Ok(_) => missing_error(node_entries(entries@), set_fields()) is None,
            Err(e) => missing_error(node_entries(entries@), set_fields()) == Some(e@),
        },
{
    let fields: Vec<&'static str> = vec![
        "source_root",
        "source",
        "target_root",
        "target",
        "membership_root",
    ];
    let ghost all = set_fields();
    let ghost views = node_entries(entries@);
    assert(fields@.len() == all.len());
    assert forall|k: int| 0 <= k < all.len() implies all[k] == (#[trigger] fields@[k])@ by {}
    let mut i: usize = 0;
    assert(all.take(0) =~= Seq::empty());
    while i < fields.len()
        invariant
            i <= fields@.len(),
            fields@.len() == all.len(),
            views == node_entries(entries@),
            all == set_fields(),
            forall|k: int| 0 <= k < all.len() ==> all[k] == (#[trigger] fields@[k])@,
            missing_error(views, all.take(i as int)) is None,
        decreases fields@.len() - i,
    {
        let field = fields[i];
        let ghost head = all.take(i + 1);
        proof {
            assert(head.drop_last() =~= all.take(i as int));
            assert(head.last() == fields@[i as int]@);
        }
        match find(entries, field) {
            Some(_) => {},
            None => {
                proof {
                    crate::document::lemma_missing_stays(views, all, i + 1);
                }
                return Err(missing(field));
            },
        }
        i += 1;
    }
    assert(all.take(all.len() as int) =~= all);
    Ok(())
}

fn raw_set(n: Node) -> (r: Result<RawSet, String>)
    ensures
        match r {
            Ok(d) => read_raw_set(n@) == Result::<RawSetView, Seq<char>>::Ok(d@),
            Err(e) => read_raw_set(n@) == Result::<RawSetView, Seq<char>>::Err(e@),
        },
{
    match n {
        Node::Object(values) => {
            let entries = part_entries(values);
            if let Err(e) = check_set(&entries) {
                return Err(e);
            }
            if let Err(e) = check_set_missing(&entries) {
                return Err(e);
            }
            proof {
                lemma_set_complete(node_entries(entries@));
            }
            let source_root = match needed_text(&entries, "source_root") {
                Ok(x) => x,
                Err(e) => return Err(e),
            };
            let source = match needed_text(&entries, "source") {
                Ok(x) => x,
                Err(e) => return Err(e),
            };
            let target_root = match needed_text(&entries, "target_root") {
                Ok(x) => x,
                Err(e) => return Err(e),
            };
            let target = match needed_text(&entries, "target") {
                Ok(x) => x,
                Err(e) => return Err(e),
            };
            let membership_root = match needed_text(&entries, "membership_root") {
                Ok(x) => x,
                Err(e) => return Err(e),
            };
            let read_only = match some_flag(&entries, "read_only") {
                Ok(x) => x,
                Err(e) => return Err(e),
            };
            let noexec = match some_flag(&entries, "noexec") {
                Ok(x) => x,
                Err(e) => return Err(e),
            };
            let nosymfollow = match some_flag(&entries, "nosymfollow") {
                Ok(x) => x,
                Err(e) => return Err(e),
            };
            Ok(
                RawSet {
                    source_root,
                    source,
                    target_root,
                    target,
                    membership_root,
                    read_only,
                    noexec,
                    nosymfollow,
                },
            )
        },
        other => Err(type_error(&other, "struct RawSet")),
    }
}

/// The group sets that entries stand for.
pub open spec fn read_set_entries(entries: Entries) -> Result<
    Map<Seq<char>, RawSetView>,
    Seq<char>,
>
    decreases entries.len(),
{
    if entries.len() == 0 {
        Ok(Map::empty())
    } else {
        match read_set_entries(entries.drop_last()) {
            Err(e) => Err(e),
            Ok(sets) => match read_raw_set(entries.last().1) {
                Err(e) => Err(e),
                Ok(set) => Ok(sets.insert(entries.last().0, set)),
            },
        }
    }
}

/// The group sets that a value stands for.
pub open spec fn read_sets(j: JsonView) -> Result<Map<Seq<char>, RawSetView>, Seq<char>> {
    match j {
        JsonView::Object(entries) => read_set_entries(entries),
        _ => Err(invalid_type(j, "a map"@)),
    }
}

proof fn lemma_sets_error_stays(entries: Entries, n: int)
    requires
        0 <= n <= entries.len(),
        read_set_entries(entries.take(n)) is Err,
    ensures
        read_set_entries(entries) == read_set_entries(entries.take(n)),
    decreases entries.len(),
{
    if n == entries.len() {
        assert(entries.take(n) =~= entries);
    } else {
        assert(entries.drop_last().take(n) =~= entries.take(n));
        lemma_sets_error_stays(entries.drop_last(), n);
    }
}

fn sets(n: Node) -> (r: Result<Table<String, RawSet>, String>)
    ensures
        match r {
            Ok(d) => read_sets(n@) == Result::<Map<Seq<char>, RawSetView>, Seq<char>>::Ok(d@),
            Err(e) => read_sets(n@) == Result::<Map<Seq<char>, RawSetView>, Seq<char>>::Err(e@),
        },
{
    let entries = match n {
        Node::Object(values) => part_entries(values),
        other => return Err(type_error(&other, "a map")),
    };
    let ghost all = node_entries(entries@);
    let mut out: Table<String, RawSet> = Table::new();
    assert(all.take(0) =~= Seq::empty());
    for entry in it: entries
        invariant
            it.seq() == entries@,
            all == node_entries(entries@),
            n@ == JsonView::Object(all),
            read_set_entries(all.take(it.index() as int)) == Result::<
                Map<Seq<char>, RawSetView>,
                Seq<char>,
            >::Ok(out@),
    {
        let ghost k = it.index() as int;
        let ghost head = all.take(k + 1);
        proof {
            assert(all[k] == (entry.0@, entry.1@));
            assert(head.drop_last() =~= all.take(k));
            assert(head.last() == all[k]);
        }
        let (key, inner) = entry;
        match raw_set(inner) {
            Ok(set) => {
                let _ = out.insert(key, set);
            },
            Err(e) => {
                proof {
                    lemma_sets_error_stays(all, k + 1);
                }
                return Err(e);
            },
        }
    }
    assert(all.take(all.len() as int) =~= all);
    Ok(out)
}

// Files.

/// The tables of a file.
pub const FILE_FIELDS: &'static str = "one of `daemon`, `groups`, `group_sets`";

/// A file that says nothing.
pub open spec fn empty_file() -> RawFileView {
    RawFileView { daemon: None, groups: Map::empty(), sets: Map::empty() }
}

/// What entries of a file say.
pub open spec fn read_file_entries(entries: Entries) -> Result<RawFileView, Seq<char>>
    decreases entries.len(),
{
    if entries.len() == 0 {
        Ok(empty_file())
    } else {
        match read_file_entries(entries.drop_last()) {
            Err(e) => Err(e),
            Ok(file) => if entries.last().0 == "daemon"@ {
                match read_daemon(entries.last().1) {
                    Err(e) => Err(e),
                    Ok(d) => Ok(RawFileView { daemon: Some(d), ..file }),
                }
            } else if entries.last().0 == "groups"@ {
                match read_groups(entries.last().1) {
                    Err(e) => Err(e),
                    Ok(groups) => Ok(RawFileView { groups, ..file }),
                }
            } else if entries.last().0 == "group_sets"@ {
                match read_sets(entries.last().1) {
                    Err(e) => Err(e),
                    Ok(sets) => Ok(RawFileView { sets, ..file }),
                }
            } else {
                Err(unknown_field(entries.last().0, FILE_FIELDS@))
            },
        }
    }
}

/// What a document says.
pub open spec fn read_file(j: JsonView) -> Result<RawFileView, Seq<char>> {
    match j {
        JsonView::Object(entries) => read_file_entries(entries),
        _ => Err(invalid_type(j, "struct RawFile"@)),
    }
}

/// What a text says as a configuration file, or why it is none.
pub open spec fn parsed_text(text: Seq<char>) -> Result<RawFileView, Seq<char>> {
    match toml_read(text) {
        Err(e) => Err(e),
        Ok(j) => read_file(j),
    }
}

proof fn lemma_file_error_stays(entries: Entries, n: int)
    requires
        0 <= n <= entries.len(),
        read_file_entries(entries.take(n)) is Err,
    ensures
        read_file_entries(entries) == read_file_entries(entries.take(n)),
    decreases entries.len(),
{
    if n == entries.len() {
        assert(entries.take(n) =~= entries);
    } else {
        assert(entries.drop_last().take(n) =~= entries.take(n));
        lemma_file_error_stays(entries.drop_last(), n);
    }
}

/// What a TOML document says as a configuration file.
pub fn file_of(document: Node) -> (r: Result<RawFile, String>)
    ensures
        match r {
            Ok(f) => read_file(document@) == Result::<RawFileView, Seq<char>>::Ok(f@),
            Err(e) => read_file(document@) == Result::<RawFileView, Seq<char>>::Err(e@),
        },
{
    let entries = match document {
        Node::Object(values) => part_entries(values),
        other => return Err(type_error(&other, "struct RawFile")),
    };
    let ghost all = node_entries(entries@);
    let mut file = RawFile { daemon: None, groups: Table::new(), sets: Table::new() };
    proof {
        assert(all.take(0) =~= Seq::empty());
        assert(file@ =~= empty_file());
    }
    for entry in it: entries
        invariant
            it.seq() == entries@,
            all == node_entries(entries@),
            document@ == JsonView::Object(all),
            read_file_entries(all.take(it.index() as int)) == Result::<
                RawFileView,
                Seq<char>,
            >::Ok(file@),
    {
        let ghost k = it.index() as int;
        let ghost head = all.take(k + 1);
        let ghost before = file@;
        proof {
            assert(all[k] == (entry.0@, entry.1@));
            assert(head.drop_last() =~= all.take(k));
            assert(head.last() == all[k]);
        }
        let (key, inner) = entry;
        if same(key.as_str(), "daemon") {
            match daemon(inner) {
                Ok(d) => {
                    let ghost added = d@;
                    file.daemon = Some(d);
                    assert(file@ =~= (RawFileView { daemon: Some(added), ..before }));
                },
                Err(e) => {
                    proof {
                        lemma_file_error_stays(all, k + 1);
                    }
                    return Err(e);
                },
            }
        } else if same(key.as_str(), "groups") {
            match groups(inner) {
                Ok(found) => {
                    let ghost added = found@;
                    file.groups = found;
                    assert(file@ =~= (RawFileView { groups: added, ..before }));
                },
                Err(e) => {
                    proof {
                        lemma_file_error_stays(all, k + 1);
                    }
                    return Err(e);
                },
            }
        } else if same(key.as_str(), "group_sets") {
            match sets(inner) {
                Ok(found) => {
                    let ghost added = found@;
                    file.sets = found;
                    assert(file@ =~= (RawFileView { sets: added, ..before }));
                },
                Err(e) => {
                    proof {
                        lemma_file_error_stays(all, k + 1);
                    }
                    return Err(e);
                },
            }
        } else {
            proof {
                lemma_file_error_stays(all, k + 1);
            }
            return Err(unknown(key.as_str(), FILE_FIELDS));
        }
    }
    assert(all.take(all.len() as int) =~= all);
    Ok(file)
}

/// Parses a configuration file.
pub fn parse_file(text: &str) -> (r: Result<RawFile, String>)
    ensures
        match r {
            Ok(f) => parsed_text(text@) == Result::<RawFileView, Seq<char>>::Ok(f@),
            Err(e) => parsed_text(text@) == Result::<RawFileView, Seq<char>>::Err(e@),
        },
{
    match read_toml(text) {
        Ok(document) => file_of(document),
        Err(e) => Err(e),
    }
}

/// A document in memory.
#[derive(Debug)]
pub struct TextDocument<'a> {
    /// Where it comes from.
    pub path: &'a str,
    /// Its content.
    pub content: &'a str,
    /// Whether it is the main file.
    pub main: bool,
}

/// The documents as they are parsed.
pub open spec fn parsed_documents(documents: Seq<TextDocument<'_>>) -> Seq<DocumentView> {
    documents.map_values(
        |d: TextDocument<'_>|
            (DocumentView { path: d.path@, content: parsed_text(d.content@), main: d.main }),
    )
}

/// Parses documents.
pub fn parse_documents(documents: &[TextDocument<'_>]) -> (r: Vec<Document>)
    ensures
        document_views(r@) == parsed_documents(documents@),
{
    let ghost all = parsed_documents(documents@);
    let mut out: Vec<Document> = Vec::new();
    let mut i: usize = 0;
    assert(document_views(out@) =~= all.take(0));
    while i < documents.len()
        invariant
            i <= documents@.len(),
            all == parsed_documents(documents@),
            document_views(out@) == all.take(i as int),
        decreases documents@.len() - i,
    {
        let ghost before = document_views(out@);
        let d = &documents[i];
        let document = Document {
            path: d.path.to_owned(),
            content: parse_file(d.content),
            main: d.main,
        };
        assert(document@ == all[i as int]);
        out.push(document);
        assert(document_views(out@) =~= before.push(all[i as int]));
        assert(all.take(i + 1) =~= all.take(i as int).push(all[i as int]));
        i += 1;
    }
    assert(all.take(all.len() as int) =~= all);
    out
}

/// Parses and validates configuration from in-memory TOML documents, without
/// touching the filesystem.
pub fn load_from_strs(documents: &[TextDocument<'_>]) -> (r: Result<Loaded, LoadError>)
    ensures
        ({
            let views = parsed_documents(documents@);
            let (config, issues) = validated(parsed_of(views), unparsed_of(views));
            match r {
                Ok(loaded) => !has_error(issues) && loaded.config@ == config && issue_views(
                    loaded.warnings@,
                ) == issues,
                Err(e) => has_error(issues) && issue_views(e.issues@) == issues,
            }
        }),
{
    load_documents(parse_documents(documents))
}

// Laws.

proof fn lemma_every_entry_is_right(
    entries: Entries,
    check: spec_fn(Seq<char>, JsonView) -> Option<Seq<char>>,
    i: int,
)
    requires
        first_error(entries, check) is None,
        0 <= i < entries.len(),
    ensures
        check(entries[i].0, entries[i].1) is None,
    decreases entries.len(),
{
    if i < entries.len() - 1 {
        assert(entries.drop_last()[i] == entries[i]);
        lemma_every_entry_is_right(entries.drop_last(), check, i);
    }
}

/// Whether a switch is what stands under its key.
pub open spec fn is_switch(j: JsonView, value: Option<bool>) -> bool {
    value matches Some(b) && j == JsonView::Bool(b)
}

/// Every setting of a group is read from the entry of its own name, whatever
/// the order of the entries is, and a group with an entry of any other name is
/// refused.
pub proof fn law_group_settings_are_read_by_name(entries: Entries, i: int)
    requires
        unique_keys(entries),
        0 <= i < entries.len(),
    ensures
        read_raw_group(JsonView::Object(entries)) matches Ok(raw) ==> {
            let (key, j) = entries[i];
            ||| key == "source_root"@ && j == JsonView::Text(raw.source_root)
            ||| key == "source"@ && j == JsonView::Text(raw.source)
            ||| key == "target_root"@ && j == JsonView::Text(raw.target_root)
            ||| key == "target"@ && j == JsonView::Text(raw.target)
            ||| key == "membership"@ && j == JsonView::Text(raw.membership)
            ||| key == "read_only"@ && is_switch(j, raw.read_only)
            ||| key == "noexec"@ && is_switch(j, raw.noexec)
            ||| key == "nosymfollow"@ && is_switch(j, raw.nosymfollow)
        },
{
    if read_raw_group(JsonView::Object(entries)) is Ok {
        lemma_every_entry_is_right(entries, group_check(), i);
        lemma_lookup_entry(entries, i);
    }
}

/// A group has all five settings that it must have, and a switch that no entry
/// sets is not set.
pub proof fn law_group_settings_are_complete(entries: Entries, key: Seq<char>)
    requires
        forall|i: int| 0 <= i < entries.len() ==> (#[trigger] entries[i]).0 != key,
    ensures
        read_raw_group(JsonView::Object(entries)) matches Ok(raw) ==> {
            &&& key != "source_root"@
            &&& key != "source"@
            &&& key != "target_root"@
            &&& key != "target"@
            &&& key != "membership"@
            &&& key == "read_only"@ ==> raw.read_only is None
            &&& key == "noexec"@ ==> raw.noexec is None
            &&& key == "nosymfollow"@ ==> raw.nosymfollow is None
        },
{
    lemma_lookup_nothing(entries, key);
    if read_raw_group(JsonView::Object(entries)) is Ok {
        let fields = group_fields();
        lemma_none_missing(entries, fields, 0);
        lemma_none_missing(entries, fields, 1);
        lemma_none_missing(entries, fields, 2);
        lemma_none_missing(entries, fields, 3);
        lemma_none_missing(entries, fields, 4);
    }
}

/// Every setting of a group set is read from the entry of its own name, and a
/// set with an entry of any other name is refused.
pub proof fn law_set_settings_are_read_by_name(entries: Entries, i: int)
    requires
        unique_keys(entries),
        0 <= i < entries.len(),
    ensures
        read_raw_set(JsonView::Object(entries)) matches Ok(raw) ==> {
            let (key, j) = entries[i];
            ||| key == "source_root"@ && j == JsonView::Text(raw.source_root)
            ||| key == "source"@ && j == JsonView::Text(raw.source)
            ||| key == "target_root"@ && j == JsonView::Text(raw.target_root)
            ||| key == "target"@ && j == JsonView::Text(raw.target)
            ||| key == "membership_root"@ && j == JsonView::Text(raw.membership_root)
            ||| key == "read_only"@ && is_switch(j, raw.read_only)
            ||| key == "noexec"@ && is_switch(j, raw.noexec)
            ||| key == "nosymfollow"@ && is_switch(j, raw.nosymfollow)
        },
{
    if read_raw_set(JsonView::Object(entries)) is Ok {
        lemma_every_entry_is_right(entries, set_check(), i);
        lemma_lookup_entry(entries, i);
    }
}

/// A group set has all five settings that it must have, and a switch that no
/// entry sets is not set.
pub proof fn law_set_settings_are_complete(entries: Entries, key: Seq<char>)
    requires
        forall|i: int| 0 <= i < entries.len() ==> (#[trigger] entries[i]).0 != key,
    ensures
        read_raw_set(JsonView::Object(entries)) matches Ok(raw) ==> {
            &&& key != "source_root"@
            &&& key != "source"@
            &&& key != "target_root"@
            &&& key != "target"@
            &&& key != "membership_root"@
            &&& key == "read_only"@ ==> raw.read_only is None
            &&& key == "noexec"@ ==> raw.noexec is None
            &&& key == "nosymfollow"@ ==> raw.nosymfollow is None
        },
{
    lemma_lookup_nothing(entries, key);
    if read_raw_set(JsonView::Object(entries)) is Ok {
        let fields = set_fields();
        lemma_none_missing(entries, fields, 0);
        lemma_none_missing(entries, fields, 1);
        lemma_none_missing(entries, fields, 2);
        lemma_none_missing(entries, fields, 3);
        lemma_none_missing(entries, fields, 4);
    }
}

/// Every daemon setting is read from the entry of its own name, and an entry
/// of any other name is refused.
pub proof fn law_daemon_settings_are_read_by_name(entries: Entries, i: int)
    requires
        unique_keys(entries),
        0 <= i < entries.len(),
    ensures
        read_daemon(JsonView::Object(entries)) matches Ok(raw) ==> {
            let (key, j) = entries[i];
            ||| key == "user"@ && (raw.user matches Some(s) && j == JsonView::Text(s))
            ||| key == "state_dir"@ && (raw.state_dir matches Some(s) && j == JsonView::Text(s))
            ||| key == "resync_interval_secs"@ && (raw.resync_interval_secs matches Some(n) && j
                == JsonView::Unsigned(n))
        },
{
    if read_daemon(JsonView::Object(entries)) is Ok {
        lemma_every_entry_is_right(entries, daemon_check(), i);
        lemma_lookup_entry(entries, i);
    }
}

/// A daemon setting that no entry gives is not set.
pub proof fn law_absent_daemon_settings_are_unset(entries: Entries, key: Seq<char>)
    requires
        forall|i: int| 0 <= i < entries.len() ==> (#[trigger] entries[i]).0 != key,
    ensures
        read_daemon(JsonView::Object(entries)) matches Ok(raw) ==> {
            &&& key == "user"@ ==> raw.user is None
            &&& key == "state_dir"@ ==> raw.state_dir is None
            &&& key == "resync_interval_secs"@ ==> raw.resync_interval_secs is None
        },
{
    lemma_lookup_nothing(entries, key);
}

proof fn lemma_group_entries(entries: Entries, i: int)
    requires
        unique_keys(entries),
        0 <= i < entries.len(),
        read_group_entries(entries) is Ok,
    ensures
        read_group_entries(entries)->Ok_0.contains_key(entries[i].0),
        read_raw_group(entries[i].1) == Ok::<RawGroupView, Seq<char>>(
            read_group_entries(entries)->Ok_0[entries[i].0],
        ),
    decreases entries.len(),
{
    let front = entries.drop_last();
    if i < front.len() {
        assert(front[i] == entries[i]);
        assert forall|a: int, b: int| 0 <= a < b < front.len() implies (#[trigger] front[a]).0 != (
        #[trigger] front[b]).0 by {
            assert(front[a] == entries[a] && front[b] == entries[b]);
        }
        lemma_group_entries(front, i);
        assert(entries[i].0 != entries[entries.len() - 1].0);
    }
}

proof fn lemma_set_entries(entries: Entries, i: int)
    requires
        unique_keys(entries),
        0 <= i < entries.len(),
        read_set_entries(entries) is Ok,
    ensures
        read_set_entries(entries)->Ok_0.contains_key(entries[i].0),
        read_raw_set(entries[i].1) == Ok::<RawSetView, Seq<char>>(
            read_set_entries(entries)->Ok_0[entries[i].0],
        ),
    decreases entries.len(),
{
    let front = entries.drop_last();
    if i < front.len() {
        assert(front[i] == entries[i]);
        assert forall|a: int, b: int| 0 <= a < b < front.len() implies (#[trigger] front[a]).0 != (
        #[trigger] front[b]).0 by {
            assert(front[a] == entries[a] && front[b] == entries[b]);
        }
        lemma_set_entries(front, i);
        assert(entries[i].0 != entries[entries.len() - 1].0);
    }
}

/// Every group, and every group set, that a file names is read under its name.
pub proof fn law_named_tables_are_read(groups: Entries, i: int)
    requires
        unique_keys(groups),
        0 <= i < groups.len(),
    ensures
        read_groups(JsonView::Object(groups)) matches Ok(all) ==> all.contains_key(groups[i].0)
            && read_raw_group(groups[i].1) == Ok::<RawGroupView, Seq<char>>(all[groups[i].0]),
        read_sets(JsonView::Object(groups)) matches Ok(all) ==> all.contains_key(groups[i].0)
            && read_raw_set(groups[i].1) == Ok::<RawSetView, Seq<char>>(all[groups[i].0]),
{
    if read_groups(JsonView::Object(groups)) is Ok {
        lemma_group_entries(groups, i);
    }
    if read_sets(JsonView::Object(groups)) is Ok {
        lemma_set_entries(groups, i);
    }
}

/// A file is made of a daemon section, groups and group sets, each read from
/// the entry of its own name; a file with any other entry is refused.
pub proof fn law_file_sections_are_read_by_name(entries: Entries, i: int)
    requires
        unique_keys(entries),
        0 <= i < entries.len(),
    ensures
        read_file(JsonView::Object(entries)) matches Ok(file) ==> {
            let (key, j) = entries[i];
            ||| key == "daemon"@ && (file.daemon matches Some(d) && read_daemon(j) == Ok::<
                RawDaemonView,
                Seq<char>,
            >(d))
            ||| key == "groups"@ && read_groups(j) == Ok::<
                Map<Seq<char>, RawGroupView>,
                Seq<char>,
            >(file.groups)
            ||| key == "group_sets"@ && read_sets(j) == Ok::<
                Map<Seq<char>, RawSetView>,
                Seq<char>,
            >(file.sets)
        },
    decreases entries.len(),
{
    let front = entries.drop_last();
    if read_file(JsonView::Object(entries)) is Ok && i < front.len() {
        assert(front[i] == entries[i]);
        assert forall|a: int, b: int| 0 <= a < b < front.len() implies (#[trigger] front[a]).0 != (
        #[trigger] front[b]).0 by {
            assert(front[a] == entries[a] && front[b] == entries[b]);
        }
        law_file_sections_are_read_by_name(front, i);
        assert(entries[i].0 != entries[entries.len() - 1].0);
    }
}

} // verus!
