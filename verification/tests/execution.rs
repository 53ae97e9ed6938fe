//! Observing, executing and completing passes.
use byssus::config::{GroupConfig, MountAttrs};
use byssus::identity::{DevIno, MountIdentity};
use byssus::membership::{EntryKind, Membership};
use byssus::mount::VerifiedOpError;
use byssus::name::{GroupId, Name};
use byssus::order::KeySet;
use byssus::path::AbsPath;
use byssus::reconcile::execute::{
    Command, Executor, MountOutcome, Reply, StepResult, VerifiedOutcome,
};
use byssus::reconcile::observe::{
    observe, targets_to_inspect, GroupScan, Note, Observed, Scan, SourceOutcome, TargetOutcome,
};
use byssus::reconcile::pass::{begin_pass, log_completion, plan_for, Pass};
use byssus::reconcile::plan::{Action, Plan, TargetState};
use byssus::reconcile::{NoteLog, Trigger};
use byssus::state::{RecordKey, State};
use byssus::template::Template;

const SOURCE: DevIno = DevIno { dev_major: 8, dev_minor: 1, ino: 42 };

const MOUNT: MountIdentity = MountIdentity { mnt_id: 7, mnt_id_unique: None, root: SOURCE };

fn group() -> GroupConfig {
    GroupConfig {
        name: Name::new("g").unwrap(),
        source_root: AbsPath::new("/projects").unwrap(),
        source: Template::parse("{name}/workspace").unwrap(),
        target_root: AbsPath::new("/view").unwrap(),
        target: Template::parse("{name}").unwrap(),
        membership: AbsPath::new("/members").unwrap(),
        attrs: MountAttrs::default(),
        origin: "/etc/byssus.toml".into(),
    }
}

fn gid(s: &str) -> GroupId {
    GroupId::parse(s).unwrap()
}

fn key(n: &str) -> RecordKey {
    RecordKey { group: gid("g"), name: Name::new(n).unwrap() }
}

fn scanned(names: &[&str]) -> Observed {
    let config = group();
    let entries = names
        .iter()
        .map(|n| (n.as_bytes(), Ok(EntryKind::Regular { size: 0 })))
        .collect();
    let scan = Scan::Scanned(Membership::from_entries(entries));
    let mut observed = observe(
        vec![GroupScan { group: gid("g"), config: &config, scan }],
        &KeySet::new(),
    );
    for i in 0..observed.desired.len() {
        observed.add_source(i, SourceOutcome::Resolved(SOURCE));
    }
    observed
}

fn see_targets(observed: &mut Observed, state: &State, found: &dyn Fn() -> TargetState) {
    let targets = targets_to_inspect(observed, state);
    for i in 0..targets.len() {
        observed.add_target(targets.at(i), TargetOutcome::Seen(found()));
    }
}

fn mounted() -> MountOutcome {
    MountOutcome::Mounted {
        identity: MOUNT,
        created_at: "2026-09-12T14:30:01Z".parse().unwrap(),
    }
}

/// A state that holds the mount of `a`.
fn with_mount() -> State {
    let mut state = State::default();
    let mut observed = scanned(&["a"]);
    see_targets(&mut observed, &state, &|| TargetState::NotMounted);
    let plan = plan_for(&observed, &state);
    let mut executor = Executor::new(&plan, Trigger::Startup);
    assert_eq!(executor.next(&mut state, Reply::Go).0, Command::Mount);
    executor.next(&mut state, Reply::Mounted(mounted()));
    executor.next(&mut state, Reply::Saved(Ok(())));
    state
}

fn removal_plan(state: &State) -> Plan {
    let mut observed = scanned(&[]);
    see_targets(&mut observed, state, &|| TargetState::Mounted { identity: MOUNT, attrs: None });
    plan_for(&observed, state)
}

#[test]
fn members_are_mounted_and_recorded() {
    let mut state = State::default();
    let mut observed = scanned(&["a"]);
    assert_eq!(observed.desired[0].source.text(), "/projects/a/workspace");
    see_targets(&mut observed, &state, &|| TargetState::NotMounted);
    let (plan, logs) = begin_pass(&observed, &state, Trigger::Startup, &mut NoteLog::default());
    assert!(logs.is_empty());
    assert!(matches!(plan.steps[0].action, Action::Mount { .. }));
    let mut executor = Executor::new(&plan, Trigger::Startup);
    assert_eq!(executor.next(&mut state, Reply::Go).0, Command::Mount);
    assert!(state.is_empty());
    assert_eq!(
        executor.next(&mut state, Reply::Mounted(mounted())).0,
        Command::Save
    );
    let record = state.get(&key("a")).unwrap();
    assert_eq!(record.identity(), MOUNT);
    assert_eq!(
        (record.read_only, record.noexec, record.nosymfollow),
        (Some(true), Some(true), Some(false))
    );
    let (_, logs) = executor.next(&mut state, Reply::Saved(Ok(())));
    assert_eq!(logs.len(), 1);
    assert!(logs[0].line(None).contains("op=mount"), "{}", logs[0].line(None));
    assert_eq!(executor.next(&mut state, Reply::Go).0, Command::Finished);
    let execution = executor.into_execution();
    assert_eq!(execution.completed(), 1);
    assert_eq!(execution.failures(), 0);
    let pass = Pass { observed, plan, execution };
    assert!(pass.succeeded());
    assert_eq!(
        log_completion(&pass, Trigger::Cli).line(None),
        "level=info msg=\"reconcile complete\" steps=1 completed=1 failed=0 findings=0"
    );
}

#[test]
fn mounts_that_cannot_be_recorded_are_undone() {
    let mut state = State::default();
    let mut observed = scanned(&["a"]);
    see_targets(&mut observed, &state, &|| TargetState::NotMounted);
    let plan = plan_for(&observed, &state);
    let mut executor = Executor::new(&plan, Trigger::Startup);
    executor.next(&mut state, Reply::Go);
    executor.next(&mut state, Reply::Mounted(mounted()));
    assert_eq!(
        executor.next(&mut state, Reply::Saved(Err("ENOSPC".into()))).0,
        Command::Rollback(MOUNT)
    );
    assert!(state.is_empty());
    executor.next(&mut state, Reply::RolledBack(VerifiedOutcome::Done));
    assert!(state.is_empty());
    assert_eq!(executor.into_execution().failures(), 1);
}

#[test]
fn failed_mounts_are_not_recorded() {
    for outcome in [
        MountOutcome::RootFailed("x".into()),
        MountOutcome::SourceFailed("x".into()),
        MountOutcome::TargetFailed("x".into()),
        MountOutcome::Occupied,
        MountOutcome::Failed("x".into()),
    ] {
        let mut state = State::default();
        let mut observed = scanned(&["a"]);
        see_targets(&mut observed, &state, &|| TargetState::NotMounted);
        let plan = plan_for(&observed, &state);
        let mut executor = Executor::new(&plan, Trigger::Startup);
        executor.next(&mut state, Reply::Go);
        executor.next(&mut state, Reply::Mounted(outcome));
        assert!(state.is_empty());
        let results = executor.into_execution().results;
        assert!(matches!(results[0], StepResult::Failed(_)));
    }
}

#[test]
fn members_that_left_are_unmounted() {
    let mut state = with_mount();
    assert_eq!(state.len(), 1);
    let plan = removal_plan(&state);
    assert!(matches!(plan.steps[0].action, Action::Unmount { .. }));
    let mut executor = Executor::new(&plan, Trigger::Inotify);
    assert_eq!(executor.next(&mut state, Reply::Go).0, Command::Unmount);
    assert_eq!(
        executor.next(&mut state, Reply::Operated(VerifiedOutcome::Done)).0,
        Command::Save
    );
    assert!(state.is_empty());
    assert_eq!(
        executor.next(&mut state, Reply::Saved(Ok(()))).0,
        Command::RemoveTarget
    );
    executor.next(&mut state, Reply::Removed(Ok(())));
    assert_eq!(executor.into_execution().completed(), 1);
}

#[test]
fn foreign_mounts_are_never_unmounted() {
    let mut state = with_mount();
    let plan = removal_plan(&state);
    let mut executor = Executor::new(&plan, Trigger::Inotify);
    executor.next(&mut state, Reply::Go);
    let mismatch = VerifiedOpError::IdentityMismatch { found: 9 };
    executor.next(&mut state, Reply::Operated(VerifiedOutcome::Failed(mismatch)));
    assert_eq!(executor.into_execution().failures(), 1);
    assert_eq!(state.len(), 1);
}

#[test]
fn unreadable_groups_are_frozen() {
    let config = group();
    let scan = |scan| {
        observe(
            vec![GroupScan { group: gid("g"), config: &config, scan }],
            &KeySet::new(),
        )
    };
    let unreadable = scan(Scan::Unreadable("EIO".into()));
    assert!(unreadable.frozen.contains(&gid("g")));
    assert!(matches!(unreadable.notes[0], Note::MembershipUnreadable { .. }));
    let deleted = scan(Scan::Deleted);
    assert!(deleted.frozen.contains(&gid("g")));
    assert!(matches!(deleted.notes[0], Note::MembershipDeleted { .. }));
    let state = with_mount();
    assert!(plan_for(&deleted, &state).is_noop());
}

#[test]
fn hidden_entries_are_passed_over() {
    let config = group();
    let entries: Vec<(&[u8], Result<EntryKind, String>)> = vec![
        (b".gitkeep", Ok(EntryKind::Regular { size: 0 })),
        (b"dir", Ok(EntryKind::Directory)),
        (b"a", Ok(EntryKind::Regular { size: 0 })),
    ];
    let observed = observe(
        vec![GroupScan {
            group: gid("g"),
            config: &config,
            scan: Scan::Scanned(Membership::from_entries(entries)),
        }],
        &KeySet::new(),
    );
    assert_eq!(observed.desired.len(), 1);
    assert_eq!(observed.notes.len(), 1);
    assert_eq!(observed.ignored.get(&gid("g")).unwrap().0, [".gitkeep"]);
}

#[test]
fn roots_that_cannot_be_opened_are_told() {
    let mut observed = scanned(&["a"]);
    observed.add_source(0, SourceOutcome::RootFailed("EACCES".into()));
    let location = observed.desired[0].target.clone();
    observed.add_target(&location, TargetOutcome::RootFailed("EACCES".into()));
    assert_eq!(
        observed.observations.targets.get(&location),
        Some(&TargetState::Unavailable("target root /view: EACCES".into()))
    );
    observed.add_source(0, SourceOutcome::Failed("ENOENT".into()));
    let plan = plan_for(&observed, &State::default());
    assert!(plan.steps.is_empty());
}
