//! Reports as JSON documents.
//!
//! What a report has nothing to say of is left out: a target or a detail that is
//! absent, and lists of notes or problems, and tables of hidden entries, that are
//! empty.
use vstd::prelude::*;
use vstd::string::*;

use crate::check::{CheckReport, CheckReportView};
use crate::json::{content, contents, entry_contents, entry_keys, is_plain, json_pretty, reads_as, value, JsonView, Node};
use crate::object::{distinct, lemma_list_plain, lemma_object_plain, lemma_present_lookup, lookup, number_value, object, object_of, part_fields, present, text_value, write_object, Fields};
use crate::order::{in_order, Table};
use crate::report::{check_views, report_views, status_views, text_view, Check, CheckView, DryRunReport, DryRunView, GroupReport, GroupReportView, MemberStatus, MemberStatusView, StatusReport, StatusReportView};
use crate::text::texts;

verus! {

// What reports look like.

/// A text that may be absent, as JSON.
pub open spec fn text_json(s: Option<Seq<char>>) -> Option<JsonView> {
    match s {
        Some(s) => Some(JsonView::Text(s)),
        None => None,
    }
}

/// Texts as JSON.
pub open spec fn texts_json(all: Seq<Seq<char>>) -> JsonView {
    JsonView::List(all.map_values(|s: Seq<char>| JsonView::Text(s)))
}

/// Texts as JSON, unless there are none.
pub open spec fn some_texts_json(all: Seq<Seq<char>>) -> Option<JsonView> {
    if all.len() == 0 {
        None
    } else {
        Some(texts_json(all))
    }
}

/// The fields of a member's status.
pub open spec fn member_fields(m: MemberStatusView) -> Fields {
    seq![
        ("group"@, Some(JsonView::Text(m.group))),
        ("name"@, Some(JsonView::Text(m.name))),
        ("target"@, text_json(m.target)),
        ("state"@, Some(JsonView::Text(m.state.text()))),
        ("detail"@, text_json(m.detail)),
    ]
}

/// The statuses of members as JSON.
pub open spec fn members_json(members: Seq<MemberStatusView>) -> JsonView {
    JsonView::List(members.map_values(|m: MemberStatusView| object(member_fields(m))))
}

/// The fields of a check.
pub open spec fn check_fields(c: CheckView) -> Fields {
    seq![
        ("name"@, Some(JsonView::Text(c.name))),
        ("level"@, Some(JsonView::Text(c.level.text()))),
        ("detail"@, Some(JsonView::Text(c.detail))),
    ]
}

/// Checks as JSON.
pub open spec fn checks_json(checks: Seq<CheckView>) -> JsonView {
    JsonView::List(checks.map_values(|c: CheckView| object(check_fields(c))))
}

/// The fields of a group's summary.
pub open spec fn group_fields(g: GroupReportView) -> Fields {
    seq![
        ("name"@, Some(JsonView::Text(g.name))),
        ("status"@, Some(JsonView::Text(g.status.text()))),
        ("membership_dir"@, Some(JsonView::Text(g.membership_dir))),
        ("propagation"@, Some(JsonView::Text(g.propagation))),
        ("members"@, Some(JsonView::Unsigned(g.members as u64))),
        ("rejected"@, Some(JsonView::Unsigned(g.rejected as u64))),
        ("ignored"@, Some(JsonView::Unsigned(g.ignored as u64))),
        ("sources_valid"@, Some(JsonView::Unsigned(g.sources_valid as u64))),
        ("sources_missing"@, Some(JsonView::Unsigned(g.sources_missing as u64))),
        ("existing_mounts"@, Some(JsonView::Unsigned(g.existing_mounts as u64))),
        ("would_create"@, Some(JsonView::Unsigned(g.would_create as u64))),
        ("would_remove"@, Some(JsonView::Unsigned(g.would_remove as u64))),
        ("conflicts"@, Some(JsonView::Unsigned(g.conflicts as u64))),
        ("problems"@, some_texts_json(g.problems)),
    ]
}

/// The summaries of groups as JSON.
pub open spec fn groups_json(groups: Seq<GroupReportView>) -> JsonView {
    JsonView::List(groups.map_values(|g: GroupReportView| object(group_fields(g))))
}

/// The fields of the `dry-run` report.
pub open spec fn dry_run_fields(r: DryRunView) -> Fields {
    seq![
        ("checks"@, Some(checks_json(r.checks))),
        ("groups"@, Some(groups_json(r.groups))),
        ("members"@, Some(members_json(r.members))),
    ]
}

/// The numbers of hidden entries as JSON, by group in order.
pub open spec fn counts_json(counts: Map<Seq<char>, usize>) -> JsonView {
    JsonView::Object(
        in_order::<String>(counts.dom()).map_values(
            |g: Seq<char>| (g, JsonView::Unsigned(counts[g] as u64)),
        ),
    )
}

/// The fields of the `status` report.
pub open spec fn status_fields(r: StatusReportView) -> Fields {
    seq![
        ("state_file"@, Some(JsonView::Text(r.state_file))),
        ("ownership_known"@, Some(JsonView::Bool(r.ownership_known))),
        ("notes"@, some_texts_json(r.notes)),
        (
            "ignored"@,
            if r.ignored == Map::<Seq<char>, usize>::empty() {
                None
            } else {
                Some(counts_json(r.ignored))
            },
        ),
        ("members"@, Some(members_json(r.members))),
    ]
}

/// The fields of the report on a checked configuration.
pub open spec fn checked_fields(r: CheckReportView) -> Fields {
    seq![
        ("valid"@, Some(JsonView::Bool(r.valid))),
        ("groups"@, Some(texts_json(r.groups))),
        ("warnings"@, Some(texts_json(r.warnings))),
        ("errors"@, Some(texts_json(r.errors))),
    ]
}

// No name of a field occurs twice.

proof fn lemma_member_names(m: MemberStatusView)
    ensures
        distinct(member_fields(m)),
{
    reveal_strlit("group");
    reveal_strlit("name");
    reveal_strlit("target");
    reveal_strlit("state");
    reveal_strlit("detail");
    assert("name"@.len() == 4);
    assert("group"@.len() == 5 && "state"@.len() == 5);
    assert("group"@[0] != "state"@[0]);
    assert("target"@.len() == 6 && "detail"@.len() == 6);
    assert("target"@[0] != "detail"@[0]);
}

proof fn lemma_check_names(c: CheckView)
    ensures
        distinct(check_fields(c)),
{
    reveal_strlit("name");
    reveal_strlit("level");
    reveal_strlit("detail");
    assert("name"@.len() == 4);
    assert("level"@.len() == 5);
    assert("detail"@.len() == 6);
}

proof fn lemma_dry_run_names(r: DryRunView)
    ensures
        distinct(dry_run_fields(r)),
{
    reveal_strlit("checks");
    reveal_strlit("groups");
    reveal_strlit("members");
    assert("checks"@.len() == 6 && "groups"@.len() == 6 && "members"@.len() == 7);
    assert("checks"@[0] != "groups"@[0]);
}

proof fn lemma_status_names(r: StatusReportView)
    ensures
        distinct(status_fields(r)),
{
    reveal_strlit("state_file");
    reveal_strlit("ownership_known");
    reveal_strlit("notes");
    reveal_strlit("ignored");
    reveal_strlit("members");
    assert("state_file"@.len() == 10);
    assert("ownership_known"@.len() == 15);
    assert("notes"@.len() == 5);
    assert("ignored"@.len() == 7 && "members"@.len() == 7);
    assert("ignored"@[0] != "members"@[0]);
}

proof fn lemma_checked_names(r: CheckReportView)
    ensures
        distinct(checked_fields(r)),
{
    reveal_strlit("valid");
    reveal_strlit("groups");
    reveal_strlit("warnings");
    reveal_strlit("errors");
    assert("valid"@.len() == 5);
    assert("warnings"@.len() == 8);
    assert("groups"@.len() == 6 && "errors"@.len() == 6);
    assert("groups"@[0] != "errors"@[0]);
}

/// The place of a field in a group's summary.
spec fn place(key: Seq<char>) -> int {
    if key.len() == 4 {
        0
    } else if key.len() == 6 {
        1
    } else if key.len() == 14 {
        2
    } else if key.len() == 11 {
        3
    } else if key.len() == 7 {
        if key[0] == 'm' {
            4
        } else {
            6
        }
    } else if key.len() == 8 {
        if key[0] == 'r' {
            5
        } else {
            13
        }
    } else if key.len() == 13 {
        7
    } else if key.len() == 15 {
        if key[0] == 's' {
            8
        } else {
            9
        }
    } else if key.len() == 12 {
        if key[6] == 'c' {
            10
        } else {
            11
        }
    } else {
        12
    }
}

proof fn lemma_group_names(g: GroupReportView)
    ensures
        distinct(group_fields(g)),
{
    reveal_strlit("name");
    reveal_strlit("status");
    reveal_strlit("membership_dir");
    reveal_strlit("propagation");
    reveal_strlit("members");
    reveal_strlit("rejected");
    reveal_strlit("ignored");
    reveal_strlit("sources_valid");
    reveal_strlit("sources_missing");
    reveal_strlit("existing_mounts");
    reveal_strlit("would_create");
    reveal_strlit("would_remove");
    reveal_strlit("conflicts");
    reveal_strlit("problems");
    assert(place("name"@) == 0);
    assert(place("status"@) == 1);
    assert(place("membership_dir"@) == 2);
    assert(place("propagation"@) == 3);
    assert(place("members"@) == 4);
    assert(place("rejected"@) == 5);
    assert(place("ignored"@) == 6);
    assert(place("sources_valid"@) == 7);
    assert(place("sources_missing"@) == 8);
    assert(place("existing_mounts"@) == 9);
    assert(place("would_create"@) == 10);
    assert(place("would_remove"@) == 11);
    assert(place("conflicts"@) == 12);
    assert(place("problems"@) == 13);
    let fields = group_fields(g);
    assert forall|i: int| 0 <= i < fields.len() implies place((#[trigger] fields[i]).0) == i by {}
    assert forall|i: int, j: int| 0 <= i < j < fields.len() implies (#[trigger] fields[i]).0 != (
    #[trigger] fields[j]).0 by {
        assert(place(fields[i].0) != place(fields[j].0));
    }
}

// Reports hold no number but integers and are not nested deeply.

proof fn lemma_texts_plain(all: Seq<Seq<char>>, depth: nat)
    ensures
        is_plain(texts_json(all), depth + 1),
{
    let items = all.map_values(|s: Seq<char>| JsonView::Text(s));
    assert forall|i: int| 0 <= i < items.len() implies is_plain(#[trigger] items[i], depth) by {}
    lemma_list_plain(items, depth);
}

proof fn lemma_members_plain(members: Seq<MemberStatusView>, depth: nat)
    ensures
        is_plain(members_json(members), depth + 2),
{
    let items = members.map_values(|m: MemberStatusView| object(member_fields(m)));
    assert forall|i: int| 0 <= i < items.len() implies is_plain(#[trigger] items[i], depth + 1) by {
        lemma_object_plain(member_fields(members[i]), depth);
    }
    lemma_list_plain(items, depth + 1);
}

proof fn lemma_checks_plain(checks: Seq<CheckView>, depth: nat)
    ensures
        is_plain(checks_json(checks), depth + 2),
{
    let items = checks.map_values(|c: CheckView| object(check_fields(c)));
    assert forall|i: int| 0 <= i < items.len() implies is_plain(#[trigger] items[i], depth + 1) by {
        lemma_object_plain(check_fields(checks[i]), depth);
    }
    lemma_list_plain(items, depth + 1);
}

proof fn lemma_groups_plain(groups: Seq<GroupReportView>, depth: nat)
    ensures
        is_plain(groups_json(groups), depth + 3),
{
    let items = groups.map_values(|g: GroupReportView| object(group_fields(g)));
    assert forall|i: int| 0 <= i < items.len() implies is_plain(#[trigger] items[i], depth + 2) by {
        lemma_texts_plain(groups[i].problems, depth);
        lemma_object_plain(group_fields(groups[i]), depth + 1);
    }
    lemma_list_plain(items, depth + 2);
}

proof fn lemma_counts_plain(counts: Map<Seq<char>, usize>, depth: nat)
    ensures
        is_plain(counts_json(counts), depth + 1),
{
    let entries = counts_json(counts)->Object_0;
    assert forall|i: int| 0 <= i < entries.len() implies is_plain((#[trigger] entries[i]).1, depth) by {}
}

// Putting reports together.

fn text_part(s: &Option<String>) -> (r: Option<serde_json::Value>)
    ensures
        match text_view(*s) {
            Some(t) => r matches Some(v) && content(v) == JsonView::Text(t),
            None => r is None,
        },
{
    match s {
        Some(t) => text_value(t.as_str()),
        None => None,
    }
}

fn flag_part(b: bool) -> (r: Option<serde_json::Value>)
    ensures
        r matches Some(v) && content(v) == JsonView::Bool(b),
{
    Some(value(Node::Bool(b)))
}

fn texts_value(all: &Vec<String>) -> (r: serde_json::Value)
    ensures
        content(r) == texts_json(texts(all@)),
{
    let ghost items = texts(all@).map_values(|s: Seq<char>| JsonView::Text(s));
    let mut out: Vec<serde_json::Value> = Vec::new();
    let mut i: usize = 0;
    assert(contents(out@) =~= items.take(0));
    while i < all.len()
        invariant
            i <= all@.len(),
            items == texts(all@).map_values(|s: Seq<char>| JsonView::Text(s)),
            contents(out@) == items.take(i as int),
        decreases all@.len() - i,
    {
        let ghost before = contents(out@);
        let item = value(Node::Text(all[i].clone()));
        assert(content(item) == items[i as int]);
        out.push(item);
        assert(contents(out@) =~= before.push(items[i as int]));
        i += 1;
        assert(contents(out@) =~= items.take(i as int));
    }
    assert(items.take(items.len() as int) =~= items);
    value(Node::List(out))
}

fn some_texts_part(all: &Vec<String>) -> (r: Option<serde_json::Value>)
    ensures
        match some_texts_json(texts(all@)) {
            Some(j) => r matches Some(v) && content(v) == j,
            None => r is None,
        },
{
    assert(texts(all@).len() == all@.len());
    if all.len() == 0 {
        None
    } else {
        Some(texts_value(all))
    }
}

fn member_value(m: &MemberStatus) -> (r: serde_json::Value)
    ensures
        content(r) == object(member_fields(m@)),
{
    let parts: Vec<(&'static str, Option<serde_json::Value>)> = vec![
        ("group", text_value(m.group.as_str())),
        ("name", text_value(m.name.as_str())),
        ("target", text_part(&m.target)),
        ("state", text_value(m.state.as_str())),
        ("detail", text_part(&m.detail)),
    ];
    proof {
        assert(part_fields(parts@) =~= member_fields(m@));
        lemma_member_names(m@);
    }
    object_of(parts)
}

fn members_value(members: &Vec<MemberStatus>) -> (r: serde_json::Value)
    ensures
        content(r) == members_json(status_views(members@)),
{
    let ghost items = members_json(status_views(members@))->List_0;
    let mut out: Vec<serde_json::Value> = Vec::new();
    let mut i: usize = 0;
    assert(contents(out@) =~= items.take(0));
    while i < members.len()
        invariant
            i <= members@.len(),
            items == members_json(status_views(members@))->List_0,
            contents(out@) == items.take(i as int),
        decreases members@.len() - i,
    {
        let ghost before = contents(out@);
        let item = member_value(&members[i]);
        assert(content(item) == items[i as int]);
        out.push(item);
        assert(contents(out@) =~= before.push(items[i as int]));
        i += 1;
        assert(contents(out@) =~= items.take(i as int));
    }
    assert(items.take(items.len() as int) =~= items);
    value(Node::List(out))
}

fn check_value(c: &Check) -> (r: serde_json::Value)
    ensures
        content(r) == object(check_fields(c@)),
{
    let parts: Vec<(&'static str, Option<serde_json::Value>)> = vec![
        ("name", text_value(c.name.as_str())),
        ("level", text_value(c.level.as_str())),
        ("detail", text_value(c.detail.as_str())),
    ];
    proof {
        assert(part_fields(parts@) =~= check_fields(c@));
        lemma_check_names(c@);
    }
    object_of(parts)
}

fn checks_value(checks: &Vec<Check>) -> (r: serde_json::Value)
    ensures
        content(r) == checks_json(check_views(checks@)),
{
    let ghost items = checks_json(check_views(checks@))->List_0;
    let mut out: Vec<serde_json::Value> = Vec::new();
    let mut i: usize = 0;
    assert(contents(out@) =~= items.take(0));
    while i < checks.len()
        invariant
            i <= checks@.len(),
            items == checks_json(check_views(checks@))->List_0,
            contents(out@) == items.take(i as int),
        decreases checks@.len() - i,
    {
        let ghost before = contents(out@);
        let item = check_value(&checks[i]);
        assert(content(item) == items[i as int]);
        out.push(item);
        assert(contents(out@) =~= before.push(items[i as int]));
        i += 1;
        assert(contents(out@) =~= items.take(i as int));
    }
    assert(items.take(items.len() as int) =~= items);
    value(Node::List(out))
}

fn group_value(g: &GroupReport) -> (r: serde_json::Value)
    ensures
        content(r) == object(group_fields(g@)),
{
    let parts: Vec<(&'static str, Option<serde_json::Value>)> = vec![
        ("name", text_value(g.name.as_str())),
        ("status", text_value(g.status.as_str())),
        ("membership_dir", text_value(g.membership_dir.as_str())),
        ("propagation", text_value(g.propagation.as_str())),
        ("members", number_value(g.members as u64)),
        ("rejected", number_value(g.rejected as u64)),
        ("ignored", number_value(g.ignored as u64)),
        ("sources_valid", number_value(g.sources_valid as u64)),
        ("sources_missing", number_value(g.sources_missing as u64)),
        ("existing_mounts", number_value(g.existing_mounts as u64)),
        ("would_create", number_value(g.would_create as u64)),
        ("would_remove", number_value(g.would_remove as u64)),
        ("conflicts", number_value(g.conflicts as u64)),
        ("problems", some_texts_part(&g.problems)),
    ];
    proof {
        assert(part_fields(parts@) =~= group_fields(g@));
        lemma_group_names(g@);
    }
    object_of(parts)
}

fn groups_value(groups: &Vec<GroupReport>) -> (r: serde_json::Value)
    ensures
        content(r) == groups_json(report_views(groups@)),
{
    let ghost items = groups_json(report_views(groups@))->List_0;
    let mut out: Vec<serde_json::Value> = Vec::new();
    let mut i: usize = 0;
    assert(contents(out@) =~= items.take(0));
    while i < groups.len()
        invariant
            i <= groups@.len(),
            items == groups_json(report_views(groups@))->List_0,
            contents(out@) == items.take(i as int),
        decreases groups@.len() - i,
    {
        let ghost before = contents(out@);
        let item = group_value(&groups[i]);
        assert(content(item) == items[i as int]);
        out.push(item);
        assert(contents(out@) =~= before.push(items[i as int]));
        i += 1;
        assert(contents(out@) =~= items.take(i as int));
    }
    assert(items.take(items.len() as int) =~= items);
    value(Node::List(out))
}

fn counts_value(counts: &Table<String, usize>) -> (r: serde_json::Value)
    ensures
        content(r) == counts_json(counts@),
{
    let n: usize = counts.len();
    let ghost keys = counts.keys();
    let ghost all = counts_json(counts@)->Object_0;
    let mut entries: Vec<(String, serde_json::Value)> = Vec::new();
    let mut i: usize = 0;
    assert(entry_contents(entries@) =~= all.take(0));
    while i < n
        invariant
            i <= n,
            n == keys.len(),
            keys == counts.keys(),
            all == counts_json(counts@)->Object_0,
            entry_contents(entries@) == all.take(i as int),
        decreases n - i,
    {
        let ghost before = entry_contents(entries@);
        let item = value(Node::Unsigned(*counts.value_at(i) as u64));
        entries.push((counts.key_at(i).clone(), item));
        assert(entry_contents(entries@) =~= before.push(all[i as int]));
        i += 1;
        assert(entry_contents(entries@) =~= all.take(i as int));
    }
    proof {
        assert(all.take(all.len() as int) =~= all);
        assert(entry_keys(all) =~= keys);
        crate::order::lemma_ascending_distinct::<String>(keys);
    }
    value(Node::Object(entries))
}

fn counts_part(counts: &Table<String, usize>) -> (r: Option<serde_json::Value>)
    ensures
        counts@ == Map::<Seq<char>, usize>::empty() ==> r is None,
        counts@ != Map::<Seq<char>, usize>::empty() ==> (r matches Some(v) && content(v)
            == counts_json(counts@)),
{
    if counts.is_empty() {
        None
    } else {
        Some(counts_value(counts))
    }
}

impl DryRunReport {
    /// Renders as a JSON document, which reads as the report's fields.
    pub fn to_json(&self) -> (r: Vec<u8>)
        ensures
            r@ == json_pretty(object(dry_run_fields(self@))).push(10),
            reads_as(r@, object(dry_run_fields(self@))),
    {
        let parts: Vec<(&'static str, Option<serde_json::Value>)> = vec![
            ("checks", Some(checks_value(&self.checks))),
            ("groups", Some(groups_value(&self.groups))),
            ("members", Some(members_value(&self.members))),
        ];
        proof {
            assert(part_fields(parts@) =~= dry_run_fields(self@));
            lemma_dry_run_names(self@);
            lemma_checks_plain(self@.checks, 124);
            lemma_groups_plain(self@.groups, 123);
            lemma_members_plain(self@.members, 124);
            lemma_object_plain(dry_run_fields(self@), 126);
        }
        write_object(parts)
    }
}

impl StatusReport {
    /// Renders as a JSON document, which reads as the report's fields.
    pub fn to_json(&self) -> (r: Vec<u8>)
        ensures
            r@ == json_pretty(object(status_fields(self@))).push(10),
            reads_as(r@, object(status_fields(self@))),
    {
        let parts: Vec<(&'static str, Option<serde_json::Value>)> = vec![
            ("state_file", text_value(self.state_file.as_str())),
            ("ownership_known", flag_part(self.ownership_known)),
            ("notes", some_texts_part(&self.notes)),
            ("ignored", counts_part(&self.ignored)),
            ("members", Some(members_value(&self.members))),
        ];
        proof {
            assert(part_fields(parts@) =~= status_fields(self@));
            lemma_status_names(self@);
            lemma_texts_plain(self@.notes, 125);
            lemma_counts_plain(self@.ignored, 125);
            lemma_members_plain(self@.members, 124);
            lemma_object_plain(status_fields(self@), 126);
        }
        write_object(parts)
    }
}

impl CheckReport {
    /// Renders as a JSON document, which reads as the report's fields.
    pub fn to_json(&self) -> (r: Vec<u8>)
        ensures
            r@ == json_pretty(object(checked_fields(self@))).push(10),
            reads_as(r@, object(checked_fields(self@))),
    {
        let parts: Vec<(&'static str, Option<serde_json::Value>)> = vec![
            ("valid", flag_part(self.valid)),
            ("groups", Some(texts_value(&self.groups))),
            ("warnings", Some(texts_value(&self.warnings))),
            ("errors", Some(texts_value(&self.errors))),
        ];
        proof {
            assert(part_fields(parts@) =~= checked_fields(self@));
            lemma_checked_names(self@);
            lemma_texts_plain(self@.groups, 125);
            lemma_texts_plain(self@.warnings, 125);
            lemma_texts_plain(self@.errors, 125);
            lemma_object_plain(checked_fields(self@), 126);
        }
        write_object(parts)
    }
}

/// What a report does not know of a member is not in its JSON: there is a target
/// and a detail exactly if the status has them, and then they are those.
pub proof fn law_absent_fields_are_left_out(m: MemberStatusView)
    ensures
        lookup(present(member_fields(m)), "target"@) == text_json(m.target),
        lookup(present(member_fields(m)), "detail"@) == text_json(m.detail),
{
    lemma_member_names(m);
    lemma_present_lookup(member_fields(m), 2);
    lemma_present_lookup(member_fields(m), 4);
}

/// What a report says of a member stands in its JSON under its own name.
pub proof fn law_members_are_rendered_by_name(members: Seq<MemberStatusView>, i: int)
    requires
        0 <= i < members.len(),
    ensures
        ({
            let m = members[i];
            &&& members_json(members) matches JsonView::List(all)
            &&& all.len() == members.len()
            &&& all[i] matches JsonView::Object(e)
            &&& {
                &&& lookup(e, "group"@) == Some(JsonView::Text(m.group))
                &&& lookup(e, "name"@) == Some(JsonView::Text(m.name))
                &&& lookup(e, "state"@) == Some(JsonView::Text(m.state.text()))
                &&& lookup(e, "target"@) == (match m.target {
                    Some(t) => Some(JsonView::Text(t)),
                    None => None,
                })
                &&& lookup(e, "detail"@) == (match m.detail {
                    Some(t) => Some(JsonView::Text(t)),
                    None => None,
                })
            }
        }),
{
    let fields = member_fields(members[i]);
    lemma_member_names(members[i]);
    lemma_present_lookup(fields, 0);
    lemma_present_lookup(fields, 1);
    lemma_present_lookup(fields, 2);
    lemma_present_lookup(fields, 3);
    lemma_present_lookup(fields, 4);
}

/// What a report says of a check stands in its JSON under its own name.
pub proof fn law_checks_are_rendered_by_name(checks: Seq<CheckView>, i: int)
    requires
        0 <= i < checks.len(),
    ensures
        ({
            &&& checks_json(checks) matches JsonView::List(all)
            &&& all.len() == checks.len()
            &&& all[i] matches JsonView::Object(e)
            &&& lookup(e, "name"@) == Some(JsonView::Text(checks[i].name))
            &&& lookup(e, "level"@) == Some(JsonView::Text(checks[i].level.text()))
            &&& lookup(e, "detail"@) == Some(JsonView::Text(checks[i].detail))
        }),
{
    let fields = check_fields(checks[i]);
    lemma_check_names(checks[i]);
    lemma_present_lookup(fields, 0);
    lemma_present_lookup(fields, 1);
    lemma_present_lookup(fields, 2);
}

/// What a report says of a group stands in its JSON under its own name. There
/// are problems only where it has some.
pub proof fn law_groups_are_rendered_by_name(groups: Seq<GroupReportView>, i: int)
    requires
        0 <= i < groups.len(),
    ensures
        ({
            let g = groups[i];
            &&& groups_json(groups) matches JsonView::List(all)
            &&& all.len() == groups.len()
            &&& all[i] matches JsonView::Object(e)
            &&& {
                &&& lookup(e, "name"@) == Some(JsonView::Text(g.name))
                &&& lookup(e, "status"@) == Some(JsonView::Text(g.status.text()))
                &&& lookup(e, "membership_dir"@) == Some(JsonView::Text(g.membership_dir))
                &&& lookup(e, "propagation"@) == Some(JsonView::Text(g.propagation))
                &&& lookup(e, "members"@) == Some(JsonView::Unsigned(g.members as u64))
                &&& lookup(e, "rejected"@) == Some(JsonView::Unsigned(g.rejected as u64))
                &&& lookup(e, "ignored"@) == Some(JsonView::Unsigned(g.ignored as u64))
                &&& lookup(e, "sources_valid"@) == Some(JsonView::Unsigned(g.sources_valid as u64))
                &&& lookup(e, "sources_missing"@) == Some(
                    JsonView::Unsigned(g.sources_missing as u64),
                )
                &&& lookup(e, "existing_mounts"@) == Some(
                    JsonView::Unsigned(g.existing_mounts as u64),
                )
                &&& lookup(e, "would_create"@) == Some(JsonView::Unsigned(g.would_create as u64))
                &&& lookup(e, "would_remove"@) == Some(JsonView::Unsigned(g.would_remove as u64))
                &&& lookup(e, "conflicts"@) == Some(JsonView::Unsigned(g.conflicts as u64))
                &&& lookup(e, "problems"@) is None <==> g.problems.len() == 0
                &&& g.problems.len() > 0 ==> lookup(e, "problems"@) == Some(
                    JsonView::List(
                        Seq::new(g.problems.len(), |k: int| JsonView::Text(g.problems[k])),
                    ),
                )
            }
        }),
{
    let g = groups[i];
    let fields = group_fields(g);
    lemma_group_names(g);
    lemma_present_lookup(fields, 0);
    lemma_present_lookup(fields, 1);
    lemma_present_lookup(fields, 2);
    lemma_present_lookup(fields, 3);
    lemma_present_lookup(fields, 4);
    lemma_present_lookup(fields, 5);
    lemma_present_lookup(fields, 6);
    lemma_present_lookup(fields, 7);
    lemma_present_lookup(fields, 8);
    lemma_present_lookup(fields, 9);
    lemma_present_lookup(fields, 10);
    lemma_present_lookup(fields, 11);
    lemma_present_lookup(fields, 12);
    lemma_present_lookup(fields, 13);
    assert(g.problems.map_values(|s: Seq<char>| JsonView::Text(s)) =~= Seq::new(
        g.problems.len(),
        |k: int| JsonView::Text(g.problems[k]),
    ));
}

/// The parts of a report stand in its JSON under their own names.
pub proof fn law_reports_are_rendered_by_name(
    d: DryRunView,
    s: StatusReportView,
    c: CheckReportView,
)
    ensures
        lookup(present(dry_run_fields(d)), "checks"@) == Some(checks_json(d.checks)),
        lookup(present(dry_run_fields(d)), "groups"@) == Some(groups_json(d.groups)),
        lookup(present(dry_run_fields(d)), "members"@) == Some(members_json(d.members)),
        lookup(present(status_fields(s)), "state_file"@) == Some(JsonView::Text(s.state_file)),
        lookup(present(status_fields(s)), "ownership_known"@) == Some(
            JsonView::Bool(s.ownership_known),
        ),
        lookup(present(status_fields(s)), "notes"@) is None <==> s.notes.len() == 0,
        s.notes.len() > 0 ==> lookup(present(status_fields(s)), "notes"@) == Some(
            texts_json(s.notes),
        ),
        lookup(present(status_fields(s)), "ignored"@) is None <==> s.ignored == Map::<
            Seq<char>,
            usize,
        >::empty(),
        lookup(present(status_fields(s)), "members"@) == Some(members_json(s.members)),
        lookup(present(checked_fields(c)), "valid"@) == Some(JsonView::Bool(c.valid)),
        lookup(present(checked_fields(c)), "groups"@) == Some(texts_json(c.groups)),
        lookup(present(checked_fields(c)), "warnings"@) == Some(texts_json(c.warnings)),
        lookup(present(checked_fields(c)), "errors"@) == Some(texts_json(c.errors)),
{
    lemma_dry_run_names(d);
    lemma_present_lookup(dry_run_fields(d), 0);
    lemma_present_lookup(dry_run_fields(d), 1);
    lemma_present_lookup(dry_run_fields(d), 2);
    lemma_status_names(s);
    lemma_present_lookup(status_fields(s), 0);
    lemma_present_lookup(status_fields(s), 1);
    lemma_present_lookup(status_fields(s), 2);
    lemma_present_lookup(status_fields(s), 3);
    lemma_present_lookup(status_fields(s), 4);
    lemma_checked_names(c);
    lemma_present_lookup(checked_fields(c), 0);
    lemma_present_lookup(checked_fields(c), 1);
    lemma_present_lookup(checked_fields(c), 2);
    lemma_present_lookup(checked_fields(c), 3);
}

/// Every text of a list is rendered as that text, in order.
pub proof fn law_texts_are_rendered_in_order(all: Seq<Seq<char>>, i: int)
    requires
        0 <= i < all.len(),
    ensures
        texts_json(all) matches JsonView::List(values) && values.len() == all.len() && values[i]
            == JsonView::Text(all[i]),
{
}

} // verus!
