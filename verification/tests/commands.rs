//! The commands of the tool, and what the programs have in common.
use byssus::app::{
    check_environment, check_propagation, load_config, open_state_for_write, propagation_targets,
    service_user, verify_config_paths, ConfigSource, LockError, TargetCheck,
};
use byssus::check::{check, overlay, overlay_issues, Origin};
use byssus::command::{
    dry_run, fails, load_state_read_only, refused_report, status, unopened, DryRunFacts,
    OpenGroupError, StateSeen,
};
use byssus::config::{Config, Issue, Loaded, OwnershipPolicy, Severity};
use byssus::name::{GroupId, Name};
use byssus::order::KeySet;
use byssus::path::AbsPath;
use byssus::privileges::plan::ServiceUser;
use byssus::probe::{Feature, KernelFeatures, PropagationCheck};
use byssus::raw::{load_from_strs, TextDocument};
use byssus::reconcile::observe::Observed;
use byssus::report::Level;
use byssus::state::State;
use byssus::store::{IoError, LoadError, LoadOutcome};
use byssus::users::ResolveError;

const TEXT: &str = r#"
[groups.b]
source_root = "/p"
source = "{name}"
target_root = "/v"
target = "{name}"
membership = "/m"

[group_sets.teams]
membership_root = "/mr"
source_root = "/p"
source = "{name}"
target_root = "/vr"
target = "{group}/{name}"
"#;

fn loaded() -> Loaded {
    load_from_strs(&[TextDocument { path: "/c.toml", content: TEXT, main: true }]).unwrap()
}

fn features() -> KernelFeatures {
    KernelFeatures {
        open_tree: Feature::Available,
        move_mount: Feature::Available,
        openat2: Feature::Available,
        mount_setattr: Feature::Available,
        statx_mnt_id: Feature::Available,
        statx_mount_root: Feature::Available,
        statx_mnt_id_unique: Feature::Available,
    }
}

fn target(group: &str, check: PropagationCheck) -> TargetCheck {
    TargetCheck {
        group: group.to_owned(),
        target_root: AbsPath::new("/v").unwrap(),
        check,
    }
}

fn open_error() -> OpenGroupError {
    OpenGroupError {
        group: Name::new("b").unwrap(),
        field: "membership",
        path: AbsPath::new("/m").unwrap(),
        error: "Permission denied".into(),
    }
}

fn warning(message: &str) -> Issue {
    Issue {
        severity: Severity::Warning,
        file: Some("/c.toml".into()),
        group: None,
        message: message.to_owned(),
    }
}

#[test]
fn explicit_locations_have_to_exist() {
    let source = ConfigSource { file: Some("/x.toml".into()), dir: None };
    let options = source.options(OwnershipPolicy::Warn);
    assert_eq!(options.main_file, "/x.toml");
    assert!(options.main_file_required);
    assert_eq!(options.config_dir, "/etc/byssus/conf.d");
    assert!(!options.config_dir_required);
}

#[test]
fn propagation_is_checked_for_groups_and_sets() {
    let targets = propagation_targets(&loaded().config);
    let labels: Vec<&str> = targets.iter().map(|t| t.0.as_str()).collect();
    assert_eq!(labels, ["b", "teams/*"]);
    assert_eq!(targets[1].1.as_path(), "/vr");

    let checks = vec![
        target("b", PropagationCheck::Shared),
        target("c", PropagationCheck::SlaveOnly),
        target("d", PropagationCheck::Private),
    ];
    let (logs, outcome) = check_propagation(&checks, Some(false), false);
    assert_eq!(logs.len(), 4);
    let error = outcome.unwrap_err();
    assert!(error.starts_with("target roots of groups c are slave mounts"), "{error}");
    assert!(check_propagation(&checks, None, true).1.is_ok());
    assert!(check_propagation(&vec![], Some(true), false).1.is_ok());
}

#[test]
fn environments_need_features_and_procfs() {
    assert!(check_environment(&features(), false, Ok(())).is_ok());
    let lacking = KernelFeatures { openat2: Feature::Missing, ..features() };
    let error = check_environment(&lacking, false, Ok(())).unwrap_err();
    assert!(error.starts_with("required kernel features are unavailable: openat2 ("), "{error}");
    assert_eq!(
        check_environment(&features(), false, Err("gone".into())).unwrap_err(),
        "/proc is not usable: gone"
    );
}

#[test]
fn root_has_to_know_the_service_user() {
    let user = ServiceUser { name: "u".into(), uid: 5, gid: 6, groups: vec![] };
    let (found, logs) = service_user("u", true, Ok(user)).unwrap();
    assert_eq!(found.unwrap().uid, 5);
    assert!(logs.is_empty());
    let missing = || ResolveError::NotFound("u".into(), "/etc/passwd".into());
    assert!(service_user("u", true, Err(missing())).is_err());
    let (found, logs) = service_user("u", false, Err(missing())).unwrap();
    assert!(found.is_none());
    assert_eq!(logs.len(), 1);
}

#[test]
fn loading_logs_warnings() {
    let mut l = loaded();
    l.warnings.push(warning("odd"));
    let (config, logs) = load_config(Ok(l)).unwrap();
    assert_eq!(config.groups.len(), 1);
    assert_eq!(logs.len(), 1);
    let bad = load_from_strs(&[TextDocument { path: "/c.toml", content: "[x]", main: true }]);
    let text = load_config(bad).unwrap_err();
    assert!(text.starts_with("invalid configuration (1 error(s))\n"), "{text}");
}

#[test]
fn path_errors_fail_and_warnings_do_not() {
    let (logs, ok) = verify_config_paths(vec![warning("odd")]);
    assert_eq!(logs.len(), 1);
    assert!(ok.is_ok());
    let error = Issue { severity: Severity::Error, ..warning("gone") };
    let (_, failed) = verify_config_paths(vec![error]);
    assert!(failed.unwrap_err().starts_with("invalid configuration paths\n"));
}

#[test]
fn states_are_opened_for_writing() {
    let (state, logs) = open_state_for_write("/s", Ok(LoadOutcome::Missing)).unwrap();
    assert!(state.is_empty());
    assert_eq!(
        logs[0].line(None),
        "level=info msg=\"no state file; starting with empty state\" path=/s"
    );
    let corrupt = LoadOutcome::Corrupt { reason: "bad".into(), preserved_as: None };
    assert_eq!(open_state_for_write("/s", Ok(corrupt)).unwrap().1.len(), 1);
    let io = LoadError::Io {
        path: "/s".into(),
        error: IoError { text: "EIO".into(), denied: false },
    };
    assert_eq!(open_state_for_write("/s", Err(io)).unwrap_err(), "/s: EIO");
}

#[test]
fn locks_that_are_held_are_told() {
    assert_eq!(
        LockError::Held.message("/var/lib/byssus"),
        "another Byssus process holds the state lock in /var/lib/byssus (is byssusd running? send it SIGHUP instead)"
    );
    assert_eq!(
        LockError::Io("EIO".into()).message("/s"),
        "cannot lock state directory: EIO"
    );
}

#[test]
fn unknown_state_is_explained() {
    let denied = || IoError { text: "EACCES".into(), denied: true };
    let known = load_state_read_only("/s", StateSeen::NoDirectory(denied()));
    assert!(!known.ownership_known);
    assert_eq!(known.file, "/s/state.json");
    assert_eq!(
        known.notes,
        ["cannot open state directory /s: EACCES (join the byssus group or run as root to read state)"]
    );
    let known = load_state_read_only("/s", StateSeen::File(Ok(LoadOutcome::Missing)));
    assert!(known.ownership_known);
    assert_eq!(known.notes, ["no state file yet"]);
    let loaded = LoadOutcome::Loaded(State::default());
    let known = load_state_read_only("/s", StateSeen::File(Ok(loaded)));
    assert!(known.ownership_known && known.notes.is_empty());
    let report = status(known, &vec![open_error()], &Observed::default());
    assert_eq!(report.notes.len(), 1);
    assert!(report.notes[0].contains("cannot open membership"), "{}", report.notes[0]);
    assert!(unopened(&vec![open_error()]).contains(&GroupId::parse("b").unwrap()));
}

#[test]
fn dry_runs_report_every_check() {
    let l = loaded();
    let loaded_state = LoadOutcome::Loaded(State::default());
    let known = load_state_read_only("/s", StateSeen::File(Ok(loaded_state)));
    let mut observed = Observed::default();
    observed.members.insert(GroupId::parse("b").unwrap(), KeySet::new());
    observed.members.insert(GroupId::parse("teams/red").unwrap(), KeySet::new());
    let report = |privileges, errors: &Vec<OpenGroupError>| {
        dry_run(DryRunFacts {
            config: &l.config,
            warnings: &vec![],
            privileges,
            features: features(),
            procfs: Ok(()),
            path_issues: &vec![],
            known: &known,
            open_errors: errors,
            checked: &vec![
                (GroupId::parse("b").unwrap(), PropagationCheck::Shared),
                (GroupId::parse("teams/red").unwrap(), PropagationCheck::Shared),
            ],
            discovered: vec![(GroupId::parse("teams/red").unwrap(), "/mr/red".into())],
            observed: &observed,
        })
    };
    let fine = report(Ok(1000), &vec![]);
    assert_eq!(fine.level(), Level::Fine);
    assert!(!fails(fine.level()));
    assert_eq!(fine.groups.len(), 2);
    assert!(fine.to_text().contains("checks run as uid 1000 with no capabilities"));
    assert!(fine.to_text().contains("1 file(s), 1 group(s)"));
    let as_root = report(Ok(0), &vec![]);
    assert_eq!(as_root.level(), Level::Warn);
    assert!(as_root.to_text().contains("= warn (checks ran as root"), "{}", as_root.to_text());
    let failed = report(Err("refused".into()), &vec![]);
    assert!(fails(failed.level()));
    let refused = refused_report(&vec![warning("odd"), Issue { severity: Severity::Error, ..warning("gone") }]);
    assert!(fails(refused.level()));
    assert_eq!(refused.checks.len(), 2);
}

fn installed(names: &[&str]) -> KeySet<Vec<u8>> {
    let mut set = KeySet::new();
    for n in names {
        set.insert(n.as_bytes().to_vec());
    }
    set
}

#[test]
fn candidates_replace_fragments() {
    let dir = installed(&["a.toml", "b.toml", "c.toml"]);
    let added = vec![b"b.toml".to_vec(), b"d.toml".to_vec(), b"notes.txt".to_vec()];
    let removed = vec!["c.toml".to_owned(), "nope.toml".to_owned()];
    let fragments = overlay(&dir, &added, &removed);
    let all: Vec<(Vec<u8>, Origin)> = (0..fragments.len())
        .map(|i| (fragments.key_at(i).clone(), *fragments.value_at(i)))
        .collect();
    assert_eq!(
        all,
        [
            (b"a.toml".to_vec(), Origin::Installed),
            (b"b.toml".to_vec(), Origin::Added(0)),
            (b"d.toml".to_vec(), Origin::Added(1)),
        ]
    );
    let paths = vec!["/x/b.toml".into(), "/x/d.toml".into(), "/x/notes.txt".into()];
    let mut issues = vec![];
    overlay_issues(&dir, &paths, &added, &removed, &mut issues);
    let texts: Vec<String> = issues.iter().map(|i| i.text()).collect();
    assert_eq!(
        texts,
        [
            "/x/notes.txt: not a drop-in fragment: the file name must end in '.toml' and not begin with '.'",
            "nope.toml: no such drop-in fragment is installed",
        ]
    );
}

#[test]
fn checks_accept_what_a_reload_accepts() {
    let config: Config = loaded().config;
    let shared = vec![target("b", PropagationCheck::Shared)];
    let report = check(&config, &vec![], false, &vec![], &shared, false);
    assert!(report.valid);
    assert_eq!(report.groups, ["b", "teams/*"]);
    assert_eq!(report.to_text(), "group: b\ngroup: teams/*\nresult: valid\n");

    let slave = vec![target("b", PropagationCheck::SlaveOnly)];
    let report = check(&config, &vec![], true, &vec![], &slave, false);
    assert!(!report.valid);
    assert!(report.to_text().contains("slave only"));
    assert!(report.to_text().contains("warning: checks ran as root because daemon.user is not set"));
    assert!(report.to_text().ends_with("result: invalid\n"));
    let report = check(&config, &vec![], false, &vec![], &slave, true);
    assert!(report.valid);
    assert!(report.to_text().contains("warning: group 'b'"));

    let report = check(&config, &vec![warning("odd")], false, &vec![open_error()], &shared, false);
    assert!(!report.valid);
    assert_eq!(report.warnings, ["/c.toml: odd"]);
    assert!(report.errors[0].contains("cannot open membership"));
    assert!(report.errors[0].contains("Permission denied"));
}
