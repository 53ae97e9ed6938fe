//! The schedule, signals, changes, status and reloads of the daemon.
use byssus::cli;
use byssus::config::Config;
use byssus::daemon::{
    check_reload, choose_user, log_reloading, on_changes, on_reload, on_signal, status_text, Schedule,
    SignalAction, DEBOUNCE, MAX_DEBOUNCE, SECOND, SIGHUP, SIGINT, SIGTERM,
};
use byssus::logging::{LogLevel, Severity};
use byssus::name::{GroupId, Name};
use byssus::order::Table;
use byssus::path::AbsPath;
use byssus::reconcile::observe::Note;
use byssus::reconcile::pass::Degraded;
use byssus::reconcile::Trigger;
use byssus::watcher::{drain, Changes, WatchEvent, Watched, IN_Q_OVERFLOW};

fn gid(s: &str) -> GroupId {
    GroupId::parse(s).unwrap()
}

fn name(s: &str) -> Name {
    Name::new(s).unwrap()
}

#[test]
fn changes_are_debounced() {
    let mut schedule = Schedule::new();
    assert_eq!(schedule.deadline(), None);
    assert_eq!(schedule.timeout(5), None);
    schedule.changed(1000);
    assert_eq!(schedule.deadline(), Some(1000 + DEBOUNCE));
    assert_eq!(schedule.timeout(1000), Some(DEBOUNCE));
    assert_eq!(schedule.due(1000 + DEBOUNCE - 1), None);
    assert_eq!(schedule.due(1000 + DEBOUNCE), Some(Trigger::Inotify));
    let late = 1000 + MAX_DEBOUNCE - 1;
    schedule.changed(late);
    assert_eq!(schedule.deadline(), Some(1000 + MAX_DEBOUNCE));
    schedule.apply();
    assert_eq!(schedule.deadline(), None);
}

#[test]
fn passes_recur_after_the_interval() {
    let mut schedule = Schedule::new();
    schedule.passed(7, Some(60));
    assert_eq!(schedule.deadline(), Some(7 + 60 * SECOND));
    assert_eq!(schedule.due(7 + 60 * SECOND), Some(Trigger::Resync));
    assert_eq!(schedule.timeout(8 + 60 * SECOND), Some(0));
    schedule.changed(7);
    assert_eq!(schedule.due(7 + 60 * SECOND), Some(Trigger::Inotify));
    schedule.apply();
    schedule.passed(9, None);
    assert_eq!(schedule.deadline(), None);
}

#[test]
fn signals_reload_or_stop() {
    assert_eq!(on_signal(SIGHUP).0, SignalAction::Reload);
    assert_eq!(on_signal(SIGTERM).0, SignalAction::Shutdown);
    assert_eq!(on_signal(SIGINT).0, SignalAction::Shutdown);
    assert_eq!(on_signal(10).0, SignalAction::Ignore);
}

fn watches() -> Table<i32, Watched> {
    let mut watches = Table::new();
    watches.insert(1, Watched::Group(gid("g")));
    watches.insert(2, Watched::SetRoot(name("teams")));
    watches.insert(3, Watched::Inner);
    watches
}

const IN_CREATE: u32 = 0x100;
const IN_DELETE_SELF: u32 = 0x400;
const IN_IGNORED: u32 = 0x8000;

#[test]
fn events_are_sorted_by_what_they_mean() {
    let mut w = watches();
    let created = drain(&mut w, &vec![WatchEvent { wd: 1, mask: IN_CREATE }]);
    assert!(created.membership_changed && !created.overflow);
    assert!(created.lost.is_empty() && created.lost_sets.is_empty());
    assert_eq!(w.len(), 3);

    let lost = drain(&mut w, &vec![WatchEvent { wd: 1, mask: IN_DELETE_SELF }]);
    assert!(lost.lost.contains(&gid("g")));

    let root = drain(&mut w, &vec![WatchEvent { wd: 2, mask: IN_IGNORED }]);
    assert!(root.lost_sets.contains(&name("teams")));

    let inner = drain(&mut w, &vec![WatchEvent { wd: 3, mask: IN_DELETE_SELF }]);
    assert!(inner.lost.is_empty() && inner.lost_sets.is_empty());
    assert!(inner.membership_changed);

    let overflow = drain(&mut w, &vec![WatchEvent { wd: -1, mask: IN_Q_OVERFLOW }]);
    assert!(overflow.overflow);

    let unknown = drain(&mut w, &vec![WatchEvent { wd: 77, mask: IN_CREATE }]);
    assert!(!unknown.overflow && unknown.lost.is_empty());
}

#[test]
fn lost_directories_are_left_alone() {
    let mut degraded = Degraded::default();
    let mut schedule = Schedule::new();
    let mut changes = Changes::default();
    changes.lost.insert(gid("g"));
    changes.lost_sets.insert(name("teams"));
    changes.membership_changed = true;
    assert_eq!(on_changes(&mut degraded, &mut schedule, &changes, 0).len(), 2);
    assert!(degraded.groups.contains(&gid("g")));
    assert!(degraded.sets.contains(&name("teams")));
    assert_eq!(schedule.deadline(), Some(DEBOUNCE));
    assert_eq!(on_changes(&mut degraded, &mut schedule, &changes, 0).len(), 0);

    let mut quiet = Schedule::new();
    let none = Changes::default();
    assert_eq!(on_changes(&mut degraded, &mut quiet, &none, 0).len(), 0);
    assert_eq!(quiet.deadline(), None);
}

#[test]
fn deleted_directories_are_left_alone() {
    let mut degraded = Degraded::default();
    assert!(degraded.is_empty());
    degraded.absorb(&vec![
        Note::MembershipDeleted { group: gid("g") },
        Note::SetRootDeleted { set: name("teams") },
        Note::MembershipUnreadable { group: gid("h"), error: "EIO".into() },
    ]);
    assert!(degraded.groups.contains(&gid("g")));
    assert!(!degraded.groups.contains(&gid("h")));
    assert!(degraded.sets.contains(&name("teams")));
}

#[test]
fn the_status_is_one_line() {
    let mut degraded = Degraded::default();
    assert_eq!(status_text(2, 5, &degraded, &None), "2 group(s), 5 mount(s)");
    degraded.groups.insert(gid("g"));
    degraded.sets.insert(name("teams"));
    assert_eq!(
        status_text(2, 5, &degraded, &Some("bad".into())),
        "2 group(s), 5 mount(s); degraded: g, teams/*; last reload failed, running previous configuration: bad"
    );
}

#[test]
fn reloads_keep_the_state_directory() {
    let before = Config::default();
    assert_eq!(check_reload(&before, &Config::default()).unwrap().len(), 0);
    let mut moved = Config::default();
    moved.daemon.state_dir = AbsPath::new("/elsewhere").unwrap();
    assert_eq!(
        check_reload(&before, &moved).unwrap_err(),
        "daemon.state_dir changed from /var/lib/byssus to /elsewhere; restart byssusd to change it"
    );
    let mut renamed = Config::default();
    renamed.daemon.user = Some("other".into());
    assert_eq!(check_reload(&before, &renamed).unwrap().len(), 1);
}

#[test]
fn reloads_end_degradation_only_when_applied() {
    let mut degraded = Degraded::default();
    degraded.groups.insert(gid("g"));
    assert_eq!(
        log_reloading().line(None),
        "level=info msg=\"reloading configuration\""
    );
    let failed = on_reload(Err("first line\nsecond line".into()), &mut degraded);
    assert!(!failed.applied);
    assert_eq!(failed.error.as_deref(), Some("first line"));
    assert!(!degraded.is_empty());
    let done = on_reload(Ok(3), &mut degraded);
    assert!(done.applied && done.error.is_none());
    assert!(degraded.is_empty());
    assert_eq!(
        done.log.line(None),
        "level=info msg=\"configuration reloaded\" groups=3"
    );
}

#[test]
fn the_user_asked_for_comes_first() {
    let mut config = Config::default();
    assert_eq!(choose_user(&None, &config), None);
    config.daemon.user = Some("byssus".into());
    assert_eq!(choose_user(&None, &config).as_deref(), Some("byssus"));
    assert_eq!(
        choose_user(&Some("other".into()), &config).as_deref(),
        Some("other")
    );
}

#[test]
fn arguments_select_options() {
    let options = cli::byssusd::Cli {
        config: Some("/c".into()),
        config_dir: None,
        log_level: LogLevel(Severity::Info),
        user: Some("u".into()),
        allow_root: true,
        allow_slave_namespace: false,
    }
    .into_options();
    assert_eq!(options.config.file.as_deref(), Some("/c"));
    assert_eq!(options.user.as_deref(), Some("u"));
    assert!(options.allow_root && !options.allow_slave_namespace);

    let tool = |command| cli::byssus::Cli {
        config: cli::byssus::ConfigArgs { config: None, config_dir: Some("/d".into()) },
        log_level: None,
        command,
    };
    let version = tool(cli::byssus::Command::Version);
    assert_eq!(version.level(), LogLevel(Severity::Warn));
    assert_eq!(version.config.source().dir.as_deref(), Some("/d"));
    let reconcile = tool(cli::byssus::Command::Reconcile {
        privileges: cli::byssus::PrivilegeArgs {
            user: None,
            allow_root: false,
            allow_slave_namespace: false,
        },
    });
    assert_eq!(reconcile.level(), LogLevel(Severity::Info));
}
