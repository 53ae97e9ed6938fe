//! Reports.
use std::collections::BTreeMap;

use byssus::check::CheckReport;
use byssus::config::{AbsPath, MountAttrs};
use byssus::identity::{DevIno, MountIdentity};
use byssus::membership::{EntryKind, RejectReason, Rejection};
use byssus::name::{GroupId, Name};
use byssus::order::{KeySet, Table};
use byssus::reconcile::observe::{Note, Observed};
use byssus::reconcile::plan::{
    plan, DesiredMount, Location, Observations, Plan, PlanInput, SourceState, TargetState,
};
use byssus::report::{
    group_reports, member_statuses, Check, DryRunReport, GroupExtra, GroupReport, Level, MemberState,
    MemberStatus, StatusReport,
};
use byssus::state::{MountRecord, RecordKey, State};
use byssus::text::Texts;

fn shared() -> GroupExtra {
    GroupExtra { propagation: "shared".to_owned(), level: Level::Fine, problems: vec![] }
}

fn key(g: &str, n: &str) -> RecordKey {
    RecordKey {
        group: GroupId::parse(g).unwrap(),
        name: Name::new(n).unwrap(),
    }
}

fn desired(g: &str, n: &str) -> DesiredMount {
    DesiredMount {
        key: key(g, n),
        source: Location {
            root: AbsPath::new("/src").unwrap(),
            path: format!("{n}/workspace"),
        },
        target: Location {
            root: AbsPath::new("/view").unwrap(),
            path: n.into(),
        },
        attrs: MountAttrs::default(),
    }
}

fn record(d: &DesiredMount, mnt_id: u64) -> MountRecord {
    MountRecord {
        group: d.key.group.clone(),
        name: d.key.name.clone(),
        source_root: d.source.root.clone(),
        source: d.source.path.clone(),
        target_root: d.target.root.clone(),
        target: d.target.path.clone(),
        mnt_id,
        mnt_id_unique: None,
        root_dev_major: 8,
        root_dev_minor: 1,
        root_ino: 1,
        read_only: Some(true),
        noexec: Some(true),
        nosymfollow: Some(false),
        created_at: "2026-09-12T00:00:00Z".parse().unwrap(),
    }
}

fn identity(mnt_id: u64) -> MountIdentity {
    MountIdentity {
        mnt_id,
        mnt_id_unique: None,
        root: DevIno {
            dev_major: 8,
            dev_minor: 1,
            ino: 1,
        },
    }
}

/// a: mounted; b: would mount; c: foreign conflict; d: source missing;
/// gone: recorded but not desired.
fn scenario() -> (Observed, State) {
    let a = desired("g", "a");
    let b = desired("g", "b");
    let c = desired("g", "c");
    let d = desired("g", "d");
    let gone = desired("g", "gone");
    let mut state = State::default();
    state.insert(record(&a, 1));
    state.insert(record(&gone, 2));
    let mut obs = Observations::default();
    let resolved = SourceState::Resolved(DevIno {
        dev_major: 8,
        dev_minor: 1,
        ino: 1,
    });
    for x in [&a, &b, &c] {
        obs.sources.insert(x.key.clone(), resolved.clone());
    }
    obs.sources
        .insert(d.key.clone(), SourceState::Unavailable("ENOENT".into()));
    let mounted = |id| TargetState::Mounted {
        identity: identity(id),
        attrs: None,
    };
    obs.targets.insert(a.target.clone(), mounted(1));
    obs.targets
        .insert(b.target.clone(), TargetState::NotMounted);
    obs.targets.insert(c.target.clone(), mounted(9));
    obs.targets
        .insert(d.target.clone(), TargetState::NotMounted);
    obs.targets.insert(gone.target.clone(), mounted(2));
    let mut names = KeySet::new();
    for n in ["a", "b", "c", "d"] {
        names.insert(Name::new(n).unwrap());
    }
    let mut members = Table::new();
    members.insert(GroupId::parse("g").unwrap(), names);
    let observed = Observed {
        desired: vec![a, b, c, d],
        observations: obs,
        members,
        ..Observed::default()
    };
    (observed, state)
}

fn planned(observed: &Observed, state: &State) -> Plan {
    plan(PlanInput {
        desired: &observed.desired,
        state,
        frozen_groups: &observed.frozen,
        observations: &observed.observations,
    })
}

#[test]
fn statuses_cover_each_case() {
    let (observed, state) = scenario();
    let p = planned(&observed, &state);
    let statuses = member_statuses(&observed, &p, &state, true);
    let by_name: BTreeMap<_, _> = statuses
        .iter()
        .map(|s| (s.name.as_str(), s.state))
        .collect();
    assert_eq!(by_name["a"], MemberState::Mounted);
    assert_eq!(by_name["b"], MemberState::WouldMount);
    assert_eq!(by_name["c"], MemberState::Conflict);
    assert_eq!(by_name["d"], MemberState::SourceUnavailable);
    assert_eq!(by_name["gone"], MemberState::WouldUnmount);

    let unknown = member_statuses(&observed, &p, &state, false);
    let c = unknown.iter().find(|s| s.name == "c").unwrap();
    assert_eq!(c.state, MemberState::MountedOwnershipUnknown);
}

#[test]
fn group_report_counts() {
    let (observed, state) = scenario();
    let p = planned(&observed, &state);
    let statuses = member_statuses(&observed, &p, &state, true);
    let g = GroupId::parse("g").unwrap();
    let mut extra = Table::new();
    extra.insert(g.clone(), shared());
    let reports = group_reports(&vec![(g, "/m".into())], &observed, &p, &statuses, &extra);
    let r = &reports[0];
    assert_eq!(r.members, 4);
    assert_eq!(r.sources_valid, 3);
    assert_eq!(r.sources_missing, 1);
    assert_eq!(r.existing_mounts, 1);
    assert_eq!(r.would_create, 1);
    assert_eq!(r.would_remove, 1);
    assert_eq!(r.conflicts, 1);
    assert_eq!(r.status, Level::Error);
    assert_eq!(r.membership_dir, "/m (readable)");
}

#[test]
fn dry_run_text_and_level() {
    let (observed, state) = scenario();
    let p = planned(&observed, &state);
    let statuses = member_statuses(&observed, &p, &state, true);
    let g = GroupId::parse("g").unwrap();
    let mut extra = Table::new();
    extra.insert(g.clone(), shared());
    let report = DryRunReport {
        checks: vec![
            Check::new("kernel.openat2", Level::Fine, ""),
            Check::new("procfs", Level::Fine, "/proc"),
        ],
        groups: group_reports(&vec![(g, "/m".into())], &observed, &p, &statuses, &extra),
        members: statuses,
    };
    assert_eq!(report.level(), Level::Error);
    let text = report.to_text();
    assert!(
        text.starts_with("kernel.openat2 = ok\nprocfs         = ok (/proc)\n"),
        "{text}"
    );
    assert!(text.contains("group=g  status=error"));
    assert!(text.contains("  would_create     = 1"));
    assert!(text.contains("g/c  state=conflict  target=/view/c"));
    assert!(
        !text.contains("g/a  state=mounted"),
        "mounted members are omitted: {text}"
    );
    let json: serde_json::Value = serde_json::from_slice(&report.to_json()).unwrap();
    assert_eq!(json["groups"][0]["would_remove"], 1);
    assert_eq!(json["members"][0]["state"], "mounted");
}

#[test]
fn status_text() {
    let (observed, state) = scenario();
    let p = planned(&observed, &state);
    let report = StatusReport {
        state_file: "/var/lib/byssus/state.json".into(),
        ownership_known: false,
        notes: vec!["permission denied; join the byssus group".into()],
        ignored: Table::new(),
        members: member_statuses(&observed, &p, &state, false),
    };
    let text = report.to_text();
    assert!(text.starts_with(
        "state_file = /var/lib/byssus/state.json (unreadable: ownership unknown)\n"
    ));
    assert!(text.contains("note: permission denied"));
    assert!(text.contains("g/a  state=mounted  target=/view/a"));
    assert!(text.contains("g/d  state=source_unavailable  target=/view/d  detail=ENOENT"));
    assert_eq!(report.level(), Level::Warn);
}

#[test]
fn rejected_and_ignored_entries_are_reported() {
    let (mut observed, state) = scenario();
    let g = GroupId::parse("g").unwrap();
    observed.notes.push(Note::Rejected {
        group: g.clone(),
        rejection: Rejection {
            display_name: "link".into(),
            reason: RejectReason::NotRegularFile(EntryKind::Symlink),
        },
    });
    observed
        .ignored
        .insert(g.clone(), Texts(vec![".gitkeep".into(), ".tmp-x".into()]));
    let p = planned(&observed, &state);
    let members = member_statuses(&observed, &p, &state, true);
    let link = members.iter().find(|m| m.name == "link").unwrap();
    assert_eq!(link.state, MemberState::Rejected);
    assert_eq!(link.target, None);
    assert_eq!(link.state.level(), Level::Warn);

    let mut ignored = Table::new();
    ignored.insert("g".to_owned(), 2);
    let report = StatusReport {
        state_file: "/s".into(),
        ownership_known: true,
        notes: vec![],
        ignored,
        members: members.clone(),
    };
    let text = report.to_text();
    assert!(
        text.contains("ignored: group 'g': 2 hidden entries"),
        "{text}"
    );
    assert!(
        text.contains("g/link  state=rejected  detail=\"not a regular file (symbolic link)\""),
        "{text}"
    );
    let json: serde_json::Value = serde_json::from_slice(&report.to_json()).unwrap();
    let link_json = json["members"]
        .as_array()
        .unwrap()
        .iter()
        .find(|m| m["name"] == "link")
        .unwrap();
    assert!(link_json.get("target").is_none());

    let mut extra = Table::new();
    extra.insert(g.clone(), shared());
    let groups = group_reports(&vec![(g, "/m".into())], &observed, &p, &members, &extra);
    assert_eq!(groups[0].rejected, 1);
    assert_eq!(groups[0].ignored, 2);
}

fn status_of(target: Option<&str>, detail: Option<&str>) -> MemberStatus {
    MemberStatus {
        group: "g".into(),
        name: "a".into(),
        target: target.map(Into::into),
        state: MemberState::Mounted,
        detail: detail.map(Into::into),
    }
}

fn written(bytes: Vec<u8>) -> String {
    String::from_utf8(bytes).unwrap()
}

#[test]
fn status_as_json() {
    let empty = StatusReport {
        state_file: "/s".into(),
        ownership_known: true,
        notes: vec![],
        ignored: Table::new(),
        members: vec![],
    };
    assert_eq!(
        written(empty.to_json()),
        "{\n  \"state_file\": \"/s\",\n  \"ownership_known\": true,\n  \"members\": []\n}\n"
    );
    let mut ignored = Table::new();
    ignored.insert("z".to_owned(), 1);
    ignored.insert("g".to_owned(), 2);
    let full = StatusReport {
        state_file: "/s".into(),
        ownership_known: false,
        notes: vec!["n".into()],
        ignored,
        members: vec![status_of(None, Some("why")), status_of(Some("/t"), None)],
    };
    assert_eq!(
        written(full.to_json()),
        r#"{
  "state_file": "/s",
  "ownership_known": false,
  "notes": [
    "n"
  ],
  "ignored": {
    "g": 2,
    "z": 1
  },
  "members": [
    {
      "group": "g",
      "name": "a",
      "state": "mounted",
      "detail": "why"
    },
    {
      "group": "g",
      "name": "a",
      "target": "/t",
      "state": "mounted"
    }
  ]
}
"#
    );
}

#[test]
fn dry_run_as_json() {
    let group = |problems: Vec<String>| GroupReport {
        name: "g".into(),
        status: Level::Warn,
        membership_dir: "/m (readable)".into(),
        propagation: "shared".into(),
        members: 1,
        rejected: 2,
        ignored: 3,
        sources_valid: 4,
        sources_missing: 5,
        existing_mounts: 6,
        would_create: 7,
        would_remove: 8,
        conflicts: 9,
        problems,
    };
    let report = DryRunReport {
        checks: vec![Check::new("procfs", Level::Fine, "/proc")],
        groups: vec![group(vec![]), group(vec!["p".into()])],
        members: vec![],
    };
    let json: serde_json::Value = serde_json::from_slice(&report.to_json()).unwrap();
    assert_eq!(json["checks"][0]["level"], "ok");
    assert_eq!(json["groups"][0]["status"], "warn");
    assert!(json["groups"][0].get("problems").is_none());
    assert_eq!(json["groups"][1]["problems"][0], "p");
    let keys: Vec<&String> = json["groups"][1].as_object().unwrap().keys().collect();
    assert_eq!(
        keys,
        [
            "name",
            "status",
            "membership_dir",
            "propagation",
            "members",
            "rejected",
            "ignored",
            "sources_valid",
            "sources_missing",
            "existing_mounts",
            "would_create",
            "would_remove",
            "conflicts",
            "problems",
        ]
    );
    for (n, key) in keys[4..13].iter().enumerate() {
        assert_eq!(json["groups"][1][key.as_str()], n + 1);
    }
}

#[test]
fn checked_configuration_as_json() {
    let report = CheckReport {
        valid: false,
        groups: vec!["g".into()],
        warnings: vec![],
        errors: vec!["e".into()],
    };
    assert_eq!(
        written(report.to_json()),
        "{\n  \"valid\": false,\n  \"groups\": [\n    \"g\"\n  ],\n  \"warnings\": [],\n  \"errors\": [\n    \"e\"\n  ]\n}\n"
    );
}
