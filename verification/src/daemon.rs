//! The decisions of the `byssusd` daemon: when to run a pass, what to leave
//! alone, and what to make of a reload.
use vstd::prelude::*;
use vstd::string::*;

use crate::app::ConfigSource;
use crate::config::{optional_text, Config, DaemonView};
use crate::logging::{field, LogRecord, LogRecordView, Severity};
use crate::name::{GroupId, GroupIdView, Name};
use crate::order::{in_order, lemma_ascending_distinct};
use crate::parse::{first_line, lines};
use crate::reconcile::pass::{Degraded, DegradedView};
use crate::reconcile::{log_record, record_views, set_label, set_text, Trigger};
use crate::text::{decimal, decimal_text, join, join_texts, texts};
use crate::watcher::{Changes, ChangesView};

verus! {

/// Daemon command-line options.
#[derive(Debug)]
pub struct Options {
    /// Configuration location.
    pub config: ConfigSource,
    /// Service user override.
    pub user: Option<String>,
    /// Permit running as root without a service user.
    pub allow_root: bool,
    /// Permit target roots on slave mounts.
    pub allow_slave_namespace: bool,
}

impl Default for Options {
    fn default() -> (r: Self)
        ensures
            r.config.file is None,
            r.config.dir is None,
            r.user is None,
            !r.allow_root,
            !r.allow_slave_namespace,
    {
        Options {
            config: ConfigSource::default(),
            user: None,
            allow_root: false,
            allow_slave_namespace: false,
        }
    }
}

/// The service user: what was asked for, or else what is configured.
pub open spec fn chosen_user(
    asked: Option<Seq<char>>,
    configured: Option<Seq<char>>,
) -> Option<Seq<char>> {
    match asked {
        Some(user) => Some(user),
        None => configured,
    }
}

/// The service user: what was asked for, or else what is configured.
pub fn choose_user(asked: &Option<String>, config: &Config) -> (r: Option<String>)
    ensures
        optional_text(r) == chosen_user(optional_text(*asked), config@.daemon.user),
{
    match asked {
        Some(user) => Some(user.clone()),
        None => match &config.daemon.user {
            Some(user) => Some(user.clone()),
            None => None,
        },
    }
}

// When to run a pass.

/// Membership changes are applied after this quiet period, in nanoseconds, so
/// that a burst of events (for example a directory being deleted file by file)
/// is seen as a whole, including any removal of the membership directory
/// itself.
pub const DEBOUNCE: u64 = 150_000_000;

/// Upper bound, in nanoseconds, on how long continuous changes can postpone a
/// pass.
pub const MAX_DEBOUNCE: u64 = 1_000_000_000;

/// Nanoseconds in a second.
pub const SECOND: u64 = 1_000_000_000;

/// A point in time, no later than the last that can be told.
pub open spec fn instant(t: int) -> u64 {
    if t > u64::MAX {
        u64::MAX
    } else {
        t as u64
    }
}

/// Membership changes that are not applied yet.
#[derive(Debug, Clone, Copy, PartialEq, Eq, Structural)]
pub struct Pending {
    /// When the first of them was seen.
    pub first: u64,
    /// When they are to be applied.
    pub due: u64,
}

/// When passes are to run. Times are nanoseconds of a clock that never goes
/// back.
#[derive(Debug, Clone, Copy, PartialEq, Eq, Structural)]
pub struct Schedule {
    /// When the next periodic pass is due.
    pub next_resync: Option<u64>,
    /// Changes that are not applied yet.
    pub pending: Option<Pending>,
}

/// The changes that are not applied yet, after another at `now`.
pub open spec fn postponed(pending: Option<Pending>, now: u64) -> Pending {
    let first = match pending {
        Some(p) => p.first,
        None => now,
    };
    let quiet = instant(now + DEBOUNCE);
    let latest = instant(first + MAX_DEBOUNCE);
    Pending {
        first,
        due: if quiet < latest {
            quiet
        } else {
            latest
        },
    }
}

/// The earlier of two times.
pub open spec fn earlier(a: Option<u64>, b: Option<u64>) -> Option<u64> {
    match (a, b) {
        (Some(x), Some(y)) => if y < x {
            Some(y)
        } else {
            Some(x)
        },
        (Some(x), None) => Some(x),
        (None, b) => b,
    }
}

impl Schedule {
    /// When something is due next.
    pub open spec fn next(self) -> Option<u64> {
        earlier(
            self.next_resync,
            match self.pending {
                Some(p) => Some(p.due),
                None => None,
            },
        )
    }

    /// Why a pass is due at `now`, if one is.
    pub open spec fn reason(self, now: u64) -> Option<Trigger> {
        if self.pending matches Some(p) && now >= p.due {
            Some(Trigger::Inotify)
        } else if self.next_resync matches Some(due) && now >= due {
            Some(Trigger::Resync)
        } else {
            None
        }
    }

    /// Nothing is due.
    pub fn new() -> (r: Self)
        ensures
            r == (Schedule { next_resync: None, pending: None }),
    {
        Schedule { next_resync: None, pending: None }
    }

    /// Membership changed at `now`.
    pub fn changed(&mut self, now: u64)
        ensures
            *final(self) == (Schedule {
                pending: Some(postponed(old(self).pending, now)),
                ..*old(self)
            }),
    {
        let first = match self.pending {
            Some(p) => p.first,
            None => now,
        };
        let quiet = now.saturating_add(DEBOUNCE);
        let latest = first.saturating_add(MAX_DEBOUNCE);
        let due = if quiet < latest {
            quiet
        } else {
            latest
        };
        self.pending = Some(Pending { first, due });
    }

    /// When something is due next.
    pub fn deadline(&self) -> (r: Option<u64>)
        ensures
            r == self.next(),
    {
        let pending = match self.pending {
            Some(p) => Some(p.due),
            None => None,
        };
        match (self.next_resync, pending) {
            (Some(x), Some(y)) => if y < x {
                Some(y)
            } else {
                Some(x)
            },
            (Some(x), None) => Some(x),
            (None, pending) => pending,
        }
    }

    /// How long to wait for events at `now`, in nanoseconds; for ever if
    /// nothing is due.
    pub fn timeout(&self, now: u64) -> (r: Option<u64>)
        ensures
            r == (match self.next() {
                Some(due) => Some(
                    if due > now {
                        (due - now) as u64
                    } else {
                        0
                    },
                ),
                None => None,
            }),
    {
        match self.deadline() {
            Some(due) => if due > now {
                Some(due - now)
            } else {
                Some(0)
            },
            None => None,
        }
    }

    /// Why a pass is due at `now`, if one is. Changes come before the periodic
    /// pass.
    pub fn due(&self, now: u64) -> (r: Option<Trigger>)
        ensures
            r == self.reason(now),
    {
        if let Some(p) = self.pending {
            if now >= p.due {
                return Some(Trigger::Inotify);
            }
        }
        if let Some(due) = self.next_resync {
            if now >= due {
                return Some(Trigger::Resync);
            }
        }
        None
    }

    /// A pass is about to run that applies every change.
    pub fn apply(&mut self)
        ensures
            *final(self) == (Schedule { pending: None, ..*old(self) }),
    {
        self.pending = None;
    }

    /// A pass ended at `now`; the next periodic one is due after the interval,
    /// in seconds.
    pub fn passed(&mut self, now: u64, interval: Option<u64>)
        ensures
            *final(self) == (Schedule {
                next_resync: match interval {
                    Some(seconds) => Some(instant(now + instant(seconds * SECOND))),
                    None => None,
                },
                ..*old(self)
            }),
    {
        self.next_resync = match interval {
            Some(seconds) => {
                let length = if seconds <= u64::MAX / SECOND {
                    seconds * SECOND
                } else {
                    u64::MAX
                };
                Some(now.saturating_add(length))
            },
            None => None,
        };
    }
}

/// Changes are applied once nothing changed for the quiet period, and however
/// many follow one another, within the bound after the first.
pub proof fn law_changes_are_applied_in_time(pending: Option<Pending>, now: u64)
    requires
        now + MAX_DEBOUNCE <= u64::MAX,
        pending matches Some(p) ==> p.first <= now,
    ensures
        ({
            let p = postponed(pending, now);
            &&& pending matches Some(before) ==> p.first == before.first
            &&& pending is None ==> p.first == now
            &&& p.due <= p.first + MAX_DEBOUNCE
            &&& p.due <= now + DEBOUNCE
            &&& p.due == now + DEBOUNCE || p.due == p.first + MAX_DEBOUNCE
        }),
{
}

/// What is due at its deadline, and nothing is due before.
pub proof fn law_deadline_is_when_a_pass_is_due(s: Schedule, now: u64)
    ensures
        s.reason(now) is Some <==> (s.next() matches Some(due) && now >= due),
{
}

// Signals.

/// What a signal asks for.
#[derive(Debug, Clone, Copy, PartialEq, Eq, Structural)]
pub enum SignalAction {
    /// Reload the configuration.
    Reload,
    /// Stop; mounts are preserved.
    Shutdown,
    /// Nothing.
    Ignore,
}

/// `SIGHUP`.
pub const SIGHUP: u32 = 1;

/// `SIGINT`.
pub const SIGINT: u32 = 2;

/// `SIGTERM`.
pub const SIGTERM: u32 = 15;

/// What a signal asks for, and what is logged of it.
pub fn on_signal(signal: u32) -> (r: (SignalAction, Vec<LogRecord>))
    ensures
        match r.0 {
            SignalAction::Reload => signal == SIGHUP && record_views(r.1@).len() == 0,
            SignalAction::Shutdown => (signal == SIGTERM || signal == SIGINT) && record_views(r.1@)
                == seq![
                log_record(
                    Severity::Info,
                    seq![
                        field("msg"@, "shutdown requested"@),
                        field("signal"@, decimal(signal as nat)),
                    ],
                ),
            ],
            SignalAction::Ignore => signal != SIGHUP && signal != SIGTERM && signal != SIGINT
                && record_views(r.1@) == seq![
                log_record(
                    Severity::Debug,
                    seq![
                        field("msg"@, "ignoring signal"@),
                        field(
                            "signal"@,
                            if signal <= i32::MAX {
                                decimal(signal as nat)
                            } else {
                                "-1"@
                            },
                        ),
                    ],
                ),
            ],
        },
{
    let mut logs: Vec<LogRecord> = Vec::new();
    if signal == SIGHUP {
        return (SignalAction::Reload, logs);
    }
    if signal == SIGTERM || signal == SIGINT {
        let mut record = LogRecord::new(Severity::Info);
        record.add("msg", "shutdown requested");
        record.add("signal", decimal_text(signal as u64).as_str());
        assert(record@.fields =~= seq![
            field("msg"@, "shutdown requested"@),
            field("signal"@, decimal(signal as nat)),
        ]);
        let ghost added = record@;
        logs.push(record);
        assert(record_views(logs@) =~= seq![added]);
        return (SignalAction::Shutdown, logs);
    }
    let mut record = LogRecord::new(Severity::Debug);
    record.add("msg", "ignoring signal");
    if signal <= i32::MAX as u32 {
        record.add("signal", decimal_text(signal as u64).as_str());
    } else {
        record.add("signal", "-1");
    }
    assert(record@.fields =~= seq![
        field("msg"@, "ignoring signal"@),
        field(
            "signal"@,
            if signal <= i32::MAX {
                decimal(signal as nat)
            } else {
                "-1"@
            },
        ),
    ]);
    let ghost added = record@;
    logs.push(record);
    assert(record_views(logs@) =~= seq![added]);
    (SignalAction::Ignore, logs)
}

// Lost directories.

/// What is logged of a group that is left alone from now on.
pub open spec fn degrade_group_record(group: Seq<char>) -> LogRecordView {
    log_record(
        Severity::Error,
        seq![
            field("op"@, "degrade"@),
            field("group"@, group),
            field(
                "msg"@,
                "membership directory was removed, moved or unmounted; keeping existing mounts and making no changes to this group until configuration is reloaded (SIGHUP)"@,
            ),
        ],
    )
}

/// What is logged of a group set that is left alone from now on.
pub open spec fn degrade_set_record(set: Seq<char>) -> LogRecordView {
    log_record(
        Severity::Error,
        seq![
            field("op"@, "degrade"@),
            field("group"@, set_label(set)),
            field(
                "msg"@,
                "group set membership root was removed, moved or unmounted; keeping existing mounts and making no changes to this set until configuration is reloaded (SIGHUP)"@,
            ),
        ],
    )
}

/// What is logged when the event queue overflowed.
pub open spec fn overflow_record() -> LogRecordView {
    log_record(
        Severity::Warn,
        seq![field("msg"@, "inotify queue overflowed; running a full reconcile"@)],
    )
}

/// What is logged of lost groups, but for those that are left alone already.
pub open spec fn lost_records(known: Set<GroupIdView>, lost: Seq<GroupIdView>) -> Seq<LogRecordView>
    decreases lost.len(),
{
    if lost.len() == 0 {
        Seq::empty()
    } else {
        let front = lost_records(known, lost.drop_last());
        if known.contains(lost.last()) {
            front
        } else {
            front.push(degrade_group_record(lost.last().text()))
        }
    }
}

/// What is logged of lost group sets, but for those that are left alone
/// already.
pub open spec fn lost_set_records(known: Set<Seq<char>>, lost: Seq<Seq<char>>) -> Seq<LogRecordView>
    decreases lost.len(),
{
    if lost.len() == 0 {
        Seq::empty()
    } else {
        let front = lost_set_records(known, lost.drop_last());
        if known.contains(lost.last()) {
            front
        } else {
            front.push(degrade_set_record(lost.last()))
        }
    }
}

fn log_lost_group(group: &GroupId) -> (r: LogRecord)
    ensures
        r@ == degrade_group_record(group@.text()),
{
    let mut r = LogRecord::new(Severity::Error);
    r.add("op", "degrade");
    r.add("group", group.text().as_str());
    r.add(
        "msg",
        "membership directory was removed, moved or unmounted; keeping existing mounts and making no changes to this group until configuration is reloaded (SIGHUP)",
    );
    assert(r@.fields =~= degrade_group_record(group@.text()).fields);
    r
}

fn log_lost_set(set: &Name) -> (r: LogRecord)
    ensures
        r@ == degrade_set_record(set@),
{
    let mut r = LogRecord::new(Severity::Error);
    r.add("op", "degrade");
    r.add("group", set_text(set).as_str());
    r.add(
        "msg",
        "group set membership root was removed, moved or unmounted; keeping existing mounts and making no changes to this set until configuration is reloaded (SIGHUP)",
    );
    assert(r@.fields =~= degrade_set_record(set@).fields);
    r
}

fn degrade_groups(degraded: &mut Degraded, changes: &Changes, logs: &mut Vec<LogRecord>)
    ensures
        final(degraded)@ == (DegradedView {
            groups: old(degraded)@.groups.union(changes@.lost),
            ..old(degraded)@
        }),
        record_views(final(logs)@) == record_views(old(logs)@) + lost_records(
            old(degraded)@.groups,
            in_order::<GroupId>(changes@.lost),
        ),
{
    let n: usize = changes.lost.len();
    let ghost lost = changes.lost.keys();
    let ghost known = degraded@.groups;
    let ghost sets = degraded@.sets;
    let ghost start = record_views(logs@);
    proof {
        lemma_ascending_distinct::<GroupId>(lost);
    }
    let mut i: usize = 0;
    assert(record_views(logs@) =~= start + lost_records(known, lost.take(0)));
    assert(degraded@.groups =~= known.union(lost.take(0).to_set()));
    while i < n
        invariant
            i <= n,
            n == lost.len(),
            lost == changes.lost.keys(),
            lost.no_duplicates(),
            degraded@.sets == sets,
            degraded@.groups == known.union(lost.take(i as int).to_set()),
            record_views(logs@) == start + lost_records(known, lost.take(i as int)),
        decreases n - i,
    {
        let group = changes.lost.at(i);
        let ghost before = record_views(logs@);
        let ghost head = lost.take(i as int);
        let ghost more = lost.take(i + 1);
        proof {
            assert(more =~= head.push(lost[i as int]));
            assert(more.drop_last() =~= head);
            head.lemma_push_to_set_commute(lost[i as int]);
            assert(!head.to_set().contains(group@)) by {
                if head.to_set().contains(group@) {
                    let k = choose|k: int| 0 <= k < head.len() && head[k] == group@;
                    assert(lost[k] == lost[i as int]);
                }
            }
        }
        if degraded.groups.insert(group.clone()) {
            let record = log_lost_group(group);
            let ghost added = record@;
            logs.push(record);
            assert(record_views(logs@) =~= before.push(added));
        }
        proof {
            assert(known.union(more.to_set()) =~= known.union(head.to_set()).insert(group@));
            assert(start + lost_records(known, more) =~= record_views(logs@));
        }
        i += 1;
    }
    proof {
        assert(lost.take(lost.len() as int) =~= lost);
        assert(degraded@ =~= (DegradedView { groups: known.union(changes@.lost), sets }));
    }
}

fn degrade_sets(degraded: &mut Degraded, changes: &Changes, logs: &mut Vec<LogRecord>)
    ensures
        final(degraded)@ == (DegradedView {
            sets: old(degraded)@.sets.union(changes@.lost_sets),
            ..old(degraded)@
        }),
        record_views(final(logs)@) == record_views(old(logs)@) + lost_set_records(
            old(degraded)@.sets,
            in_order::<Name>(changes@.lost_sets),
        ),
{
    let n: usize = changes.lost_sets.len();
    let ghost lost = changes.lost_sets.keys();
    let ghost known = degraded@.sets;
    let ghost groups = degraded@.groups;
    let ghost start = record_views(logs@);
    proof {
        lemma_ascending_distinct::<Name>(lost);
    }
    let mut i: usize = 0;
    assert(record_views(logs@) =~= start + lost_set_records(known, lost.take(0)));
    assert(degraded@.sets =~= known.union(lost.take(0).to_set()));
    while i < n
        invariant
            i <= n,
            n == lost.len(),
            lost == changes.lost_sets.keys(),
            lost.no_duplicates(),
            degraded@.groups == groups,
            degraded@.sets == known.union(lost.take(i as int).to_set()),
            record_views(logs@) == start + lost_set_records(known, lost.take(i as int)),
        decreases n - i,
    {
        let set = changes.lost_sets.at(i);
        let ghost before = record_views(logs@);
        let ghost head = lost.take(i as int);
        let ghost more = lost.take(i + 1);
        proof {
            assert(more =~= head.push(lost[i as int]));
            assert(more.drop_last() =~= head);
            head.lemma_push_to_set_commute(lost[i as int]);
            assert(!head.to_set().contains(set@)) by {
                if head.to_set().contains(set@) {
                    let k = choose|k: int| 0 <= k < head.len() && head[k] == set@;
                    assert(lost[k] == lost[i as int]);
                }
            }
        }
        if degraded.sets.insert(set.clone()) {
            let record = log_lost_set(set);
            let ghost added = record@;
            logs.push(record);
            assert(record_views(logs@) =~= before.push(added));
        }
        proof {
            assert(known.union(more.to_set()) =~= known.union(head.to_set()).insert(set@));
            assert(start + lost_set_records(known, more) =~= record_views(logs@));
        }
        i += 1;
    }
    proof {
        assert(lost.take(lost.len() as int) =~= lost);
        assert(degraded@ =~= (DegradedView { groups, sets: known.union(changes@.lost_sets) }));
    }
}

/// What is logged of changes.
pub open spec fn change_records(d: DegradedView, c: ChangesView) -> Seq<LogRecordView> {
    lost_records(d.groups, in_order::<GroupId>(c.lost)) + lost_set_records(
        d.sets,
        in_order::<Name>(c.lost_sets),
    ) + (if c.overflow {
        seq![overflow_record()]
    } else {
        Seq::empty()
    })
}

/// Takes in changes of membership directories: what was lost is left alone from
/// now on, and if anything changed, a pass is due after a quiet period.
pub fn on_changes(
    degraded: &mut Degraded,
    schedule: &mut Schedule,
    changes: &Changes,
    now: u64,
) -> (r: Vec<LogRecord>)
    ensures
        record_views(r@) == change_records(old(degraded)@, changes@),
        final(degraded)@ == (DegradedView {
            groups: old(degraded)@.groups.union(changes@.lost),
            sets: old(degraded)@.sets.union(changes@.lost_sets),
        }),
        *final(schedule) == (if changes@.membership_changed || changes@.overflow {
            Schedule { pending: Some(postponed(old(schedule).pending, now)), ..*old(schedule) }
        } else {
            *old(schedule)
        }),
{
    let ghost start = degraded@;
    let mut logs: Vec<LogRecord> = Vec::new();
    assert(record_views(logs@) =~= Seq::empty());
    degrade_groups(degraded, changes, &mut logs);
    degrade_sets(degraded, changes, &mut logs);
    let ghost before = record_views(logs@);
    if changes.overflow {
        let mut record = LogRecord::new(Severity::Warn);
        record.add("msg", "inotify queue overflowed; running a full reconcile");
        assert(record@.fields =~= overflow_record().fields);
        let ghost added = record@;
        logs.push(record);
        assert(record_views(logs@) =~= before.push(added));
    }
    assert(record_views(logs@) =~= change_records(start, changes@));
    if changes.membership_changed || changes.overflow {
        schedule.changed(now);
    }
    logs
}

/// A lost directory is left alone from then on, and loses nothing that was left
/// alone before.
pub proof fn law_lost_directories_are_left_alone(d: DegradedView, c: ChangesView, group: GroupIdView, set: Seq<
    char,
>)
    ensures
        c.lost.contains(group) ==> d.groups.union(c.lost).contains(group),
        c.lost_sets.contains(set) ==> d.sets.union(c.lost_sets).contains(set),
        d.groups.subset_of(d.groups.union(c.lost)),
        d.sets.subset_of(d.sets.union(c.lost_sets)),
{
}

// Status.

/// The names of what is left alone.
pub open spec fn degraded_names(d: DegradedView) -> Seq<Seq<char>> {
    in_order::<GroupId>(d.groups).map_values(|g: GroupIdView| g.text())
        + in_order::<Name>(d.sets).map_values(|s: Seq<char>| set_label(s))
}

/// The status of the daemon in one line.
pub open spec fn daemon_status(
    groups: nat,
    mounts: nat,
    d: DegradedView,
    reload_error: Option<Seq<char>>,
) -> Seq<char> {
    decimal(groups) + " group(s), "@ + decimal(mounts) + " mount(s)"@ + (if d == (DegradedView {
        groups: Set::empty(),
        sets: Set::empty(),
    }) {
        Seq::empty()
    } else {
        "; degraded: "@ + join(degraded_names(d), ", "@)
    }) + (match reload_error {
        Some(e) => "; last reload failed, running previous configuration: "@ + e,
        None => Seq::empty(),
    })
}

fn names_of(degraded: &Degraded) -> (r: Vec<String>)
    ensures
        texts(r@) == degraded_names(degraded@),
{
    let ghost all = degraded_names(degraded@);
    let ghost groups = degraded.groups.keys();
    let ghost sets = degraded.sets.keys();
    let n: usize = degraded.groups.len();
    let mut names: Vec<String> = Vec::new();
    let mut i: usize = 0;
    assert(texts(names@) =~= all.take(0));
    while i < n
        invariant
            i <= n,
            n == groups.len(),
            groups == degraded.groups.keys(),
            sets == degraded.sets.keys(),
            all == degraded_names(degraded@),
            texts(names@) == all.take(i as int),
        decreases n - i,
    {
        let ghost before = texts(names@);
        let text = degraded.groups.at(i).text();
        names.push(text);
        assert(texts(names@) =~= before.push(all[i as int]));
        assert(all.take(i + 1) =~= all.take(i as int).push(all[i as int]));
        i += 1;
    }
    let m: usize = degraded.sets.len();
    let mut j: usize = 0;
    while j < m
        invariant
            j <= m,
            m == sets.len(),
            n == groups.len(),
            groups == degraded.groups.keys(),
            sets == degraded.sets.keys(),
            all == degraded_names(degraded@),
            texts(names@) == all.take(n + j),
        decreases m - j,
    {
        let ghost before = texts(names@);
        let text = set_text(degraded.sets.at(j));
        names.push(text);
        assert(texts(names@) =~= before.push(all[n + j]));
        assert(all.take(n + j + 1) =~= all.take(n + j).push(all[n + j]));
        j += 1;
    }
    assert(all.take(all.len() as int) =~= all);
    names
}

/// The status of the daemon in one line.
pub fn status_text(groups: usize, mounts: usize, degraded: &Degraded, reload_error: &Option<String>) -> (r:
    String)
    ensures
        r@ == daemon_status(
            groups as nat,
            mounts as nat,
            degraded@,
            optional_text(*reload_error),
        ),
{
    let mut out = decimal_text(groups as u64);
    out.append(" group(s), ");
    out.append(decimal_text(mounts as u64).as_str());
    out.append(" mount(s)");
    if !degraded.is_empty() {
        out.append("; degraded: ");
        out.append(join_texts(&names_of(degraded), ", ").as_str());
    }
    if let Some(e) = reload_error {
        out.append("; last reload failed, running previous configuration: ");
        out.append(e.as_str());
    }
    assert(out@ =~= daemon_status(
        groups as nat,
        mounts as nat,
        degraded@,
        optional_text(*reload_error),
    ));
    out
}

// Reload.

/// Why a new configuration cannot be taken over, if it cannot.
pub open spec fn reload_refused(before: DaemonView, after: DaemonView) -> Option<Seq<char>> {
    if before.state_dir != after.state_dir {
        Some(
            "daemon.state_dir changed from "@ + before.state_dir + " to "@ + after.state_dir
                + "; restart byssusd to change it"@,
        )
    } else {
        None
    }
}

/// What is logged of a new configuration that is taken over.
pub open spec fn user_changed_record() -> LogRecordView {
    log_record(
        Severity::Warn,
        seq![field("msg"@, "daemon.user changed; it takes effect on restart"@)],
    )
}

fn same_user(a: &Option<String>, b: &Option<String>) -> (r: bool)
    ensures
        r == (optional_text(*a) == optional_text(*b)),
{
    match (a, b) {
        (Some(x), Some(y)) => crate::text::same(x.as_str(), y.as_str()),
        (None, None) => true,
        _ => false,
    }
}

/// Whether a new configuration can be taken over by a running daemon.
pub fn check_reload(before: &Config, after: &Config) -> (r: Result<Vec<LogRecord>, String>)
    ensures
        match r {
            Ok(logs) => reload_refused(before@.daemon, after@.daemon) is None && record_views(
                logs@,
            ) == (if before@.daemon.user == after@.daemon.user {
                Seq::empty()
            } else {
                seq![user_changed_record()]
            }),
            Err(e) => reload_refused(before@.daemon, after@.daemon) == Some(e@),
        },
{
    if !before.daemon.state_dir.same(&after.daemon.state_dir) {
        let mut out = "daemon.state_dir changed from ".to_owned();
        out.append(before.daemon.state_dir.as_path());
        out.append(" to ");
        out.append(after.daemon.state_dir.as_path());
        out.append("; restart byssusd to change it");
        return Err(out);
    }
    let mut logs: Vec<LogRecord> = Vec::new();
    assert(record_views(logs@) =~= Seq::empty());
    if !same_user(&before.daemon.user, &after.daemon.user) {
        let mut record = LogRecord::new(Severity::Warn);
        record.add("msg", "daemon.user changed; it takes effect on restart");
        assert(record@.fields =~= user_changed_record().fields);
        let ghost added = record@;
        logs.push(record);
        assert(record_views(logs@) =~= seq![added]);
    }
    Ok(logs)
}

/// The first line of a text, empty if there is none.
pub open spec fn head_line(s: Seq<char>) -> Seq<char> {
    if lines(s).len() == 0 {
        Seq::empty()
    } else {
        lines(s)[0]
    }
}

/// What is logged when a reload begins.
pub fn log_reloading() -> (r: LogRecord)
    ensures
        r@ == log_record(Severity::Info, seq![field("msg"@, "reloading configuration"@)]),
{
    let mut log = LogRecord::new(Severity::Info);
    log.add("msg", "reloading configuration");
    assert(log@.fields =~= seq![field("msg"@, "reloading configuration"@)]);
    log
}

/// What came of a reload: whether the new configuration is in force, why not,
/// and what is logged.
#[derive(Debug)]
pub struct Reloaded {
    /// Whether the new configuration is in force.
    pub applied: bool,
    /// Why the reload was rejected, in one line.
    pub error: Option<String>,
    /// What is logged.
    pub log: LogRecord,
}

/// What comes of a reload, given the number of groups of the new configuration
/// or why it was rejected. After a reload nothing is left alone any more; after
/// a rejected one everything stays as it was.
pub fn on_reload(outcome: Result<usize, String>, degraded: &mut Degraded) -> (r: Reloaded)
    ensures
        match outcome {
            Ok(groups) => {
                &&& r.applied
                &&& r.error is None
                &&& final(degraded)@ == (DegradedView { groups: Set::empty(), sets: Set::empty() })
                &&& r.log@ == log_record(
                    Severity::Info,
                    seq![
                        field("msg"@, "configuration reloaded"@),
                        field("groups"@, decimal(groups as nat)),
                    ],
                )
            },
            Err(e) => {
                &&& !r.applied
                &&& optional_text(r.error) == Some(head_line(e@))
                &&& final(degraded)@ == old(degraded)@
                &&& r.log@ == log_record(
                    Severity::Error,
                    seq![
                        field("msg"@, "reload failed; keeping previous configuration"@),
                        field("error"@, e@),
                    ],
                )
            },
        },
{
    match outcome {
        Ok(groups) => {
            *degraded = Degraded::default();
            let mut log = LogRecord::new(Severity::Info);
            log.add("msg", "configuration reloaded");
            log.add("groups", decimal_text(groups as u64).as_str());
            assert(log@.fields =~= seq![
                field("msg"@, "configuration reloaded"@),
                field("groups"@, decimal(groups as nat)),
            ]);
            Reloaded { applied: true, error: None, log }
        },
        Err(e) => {
            let mut log = LogRecord::new(Severity::Error);
            log.add("msg", "reload failed; keeping previous configuration");
            log.add("error", e.as_str());
            assert(log@.fields =~= seq![
                field("msg"@, "reload failed; keeping previous configuration"@),
                field("error"@, e@),
            ]);
            Reloaded { applied: false, error: Some(first_line(e.as_str())), log }
        },
    }
}

// Laws.

/// A user that was asked for takes precedence over the configured one.
pub proof fn law_the_asked_user_counts(asked: Option<Seq<char>>, configured: Option<Seq<char>>)
    ensures
        asked is Some ==> chosen_user(asked, configured) == asked,
        asked is None ==> chosen_user(asked, configured) == configured,
{
}

/// The next deadline is the earliest of those that there are, and there is none
/// only if there are none.
pub proof fn law_the_earliest_deadline_is_next(s: Schedule)
    ensures
        s.next() is None <==> s.next_resync is None && s.pending is None,
        s.next() matches Some(t) ==> {
            &&& s.next_resync matches Some(r) ==> t <= r
            &&& s.pending matches Some(p) ==> t <= p.due
            &&& s.next_resync == Some(t) || (s.pending matches Some(p) && p.due == t)
        },
{
}

/// A pass is due for changes once their quiet period is over, and else for the
/// periodic pass once its time has come; changes go before the periodic pass.
pub proof fn law_passes_have_their_reason(s: Schedule, now: u64)
    ensures
        s.reason(now) == Some(Trigger::Inotify) <==> (s.pending matches Some(p) && p.due <= now),
        s.reason(now) == Some(Trigger::Resync) <==> (s.pending matches Some(p) ==> now < p.due) && (
        s.next_resync matches Some(r) && r <= now),
        s.reason(now) matches Some(t) ==> t == Trigger::Inotify || t == Trigger::Resync,
{
}

/// Changes wait for a quiet period of 150 milliseconds after the last of them,
/// but no longer than one second after the first.
pub proof fn law_changes_wait_for_quiet(pending: Option<Pending>, now: u64)
    requires
        now + 1_000_000_000 <= u64::MAX,
        pending matches Some(p) ==> p.first <= now,
    ensures
        ({
            let p = postponed(pending, now);
            let first = match pending {
                Some(before) => before.first,
                None => now,
            };
            &&& p.first == first
            &&& p.due <= now + 150_000_000
            &&& p.due <= first + 1_000_000_000
            &&& p.due == now + 150_000_000 || p.due == first + 1_000_000_000
        }),
{
}

/// A running daemon takes a new configuration over exactly if the state
/// directory stays.
pub proof fn law_only_the_state_directory_is_fixed(before: DaemonView, after: DaemonView)
    ensures
        reload_refused(before, after) is None <==> before.state_dir == after.state_dir,
{
}

/// Every directory that was lost and was not known to be is told in the log,
/// once, as an error under its own name; one that was known is not told again.
pub proof fn law_losses_are_logged_once(
    known: Set<GroupIdView>,
    lost: Seq<GroupIdView>,
    group: GroupIdView,
    known_sets: Set<Seq<char>>,
    lost_sets: Seq<Seq<char>>,
    set: Seq<char>,
)
    ensures
        ({
            let before = lost_records(known, lost);
            let after = lost_records(known, lost.push(group));
            &&& known.contains(group) ==> after == before
            &&& !known.contains(group) ==> after.len() == before.len() + 1 && after.drop_last()
                == before && after.last().severity == Severity::Error && after.last().fields[1]
                == field("group"@, group.text())
        }),
        ({
            let before = lost_set_records(known_sets, lost_sets);
            let after = lost_set_records(known_sets, lost_sets.push(set));
            &&& known_sets.contains(set) ==> after == before
            &&& !known_sets.contains(set) ==> after.len() == before.len() + 1 && after.drop_last()
                == before && after.last().severity == Severity::Error && after.last().fields[1]
                == field("group"@, set_label(set))
        }),
        lost_records(known, Seq::empty()).len() == 0,
        lost_set_records(known_sets, Seq::empty()).len() == 0,
{
    assert(lost.push(group).drop_last() =~= lost);
    assert(lost_sets.push(set).drop_last() =~= lost_sets);
    assert(lost_records(known, lost.push(group)).drop_last() =~= lost_records(known, lost)
        || known.contains(group));
    assert(lost_set_records(known_sets, lost_sets.push(set)).drop_last() =~= lost_set_records(
        known_sets,
        lost_sets,
    ) || known_sets.contains(set));
}

/// The status names every group and set that is left alone, and no other.
pub proof fn law_degraded_names_are_told(d: DegradedView, name: Seq<char>)
    requires
        d.groups.finite(),
        d.sets.finite(),
    ensures
        degraded_names(d).contains(name) <==> (exists|g: GroupIdView| #[trigger]
            d.groups.contains(g) && g.text() == name) || (exists|s: Seq<char>| #[trigger]
            d.sets.contains(s) && set_label(s) == name),
{
    let groups = in_order::<GroupId>(d.groups);
    let sets = in_order::<Name>(d.sets);
    crate::order::lemma_in_order_finite::<GroupId>(d.groups);
    crate::order::lemma_in_order_finite::<Name>(d.sets);
    let a = groups.map_values(|g: GroupIdView| g.text());
    let b = sets.map_values(|s: Seq<char>| set_label(s));
    let all = a + b;
    if all.contains(name) {
        let i = choose|i: int| 0 <= i < all.len() && all[i] == name;
        if i < a.len() {
            assert(groups.to_set().contains(groups[i]));
            assert(d.groups.contains(groups[i]));
        } else {
            assert(sets.to_set().contains(sets[i - a.len()]));
            assert(d.sets.contains(sets[i - a.len()]));
        }
    }
    if exists|g: GroupIdView| #[trigger] d.groups.contains(g) && g.text() == name {
        let g = choose|g: GroupIdView| #[trigger] d.groups.contains(g) && g.text() == name;
        assert(groups.to_set().contains(g));
        let i = choose|i: int| 0 <= i < groups.len() && groups[i] == g;
        assert(all[i] == name);
    }
    if exists|s: Seq<char>| #[trigger] d.sets.contains(s) && set_label(s) == name {
        let s = choose|s: Seq<char>| #[trigger] d.sets.contains(s) && set_label(s) == name;
        assert(sets.to_set().contains(s));
        let i = choose|i: int| 0 <= i < sets.len() && sets[i] == s;
        assert(all[a.len() + i] == name);
    }
}

/// The status line tells the groups and the mounts. What is degraded and what
/// failed of a reload are told behind, where there is any.
pub proof fn law_the_status_line_tells_what_is_wrong(
    groups: nat,
    mounts: nat,
    d: DegradedView,
    e: Seq<char>,
)
    ensures
        ({
            let fine = DegradedView { groups: Set::empty(), sets: Set::empty() };
            &&& daemon_status(groups, mounts, fine, None) == decimal(groups) + " group(s), "@
                + decimal(mounts) + " mount(s)"@
            &&& d != fine ==> daemon_status(groups, mounts, d, None) == decimal(groups)
                + " group(s), "@ + decimal(mounts) + " mount(s); degraded: "@ + join(
                degraded_names(d),
                ", "@,
            )
            &&& daemon_status(groups, mounts, d, Some(e)) == daemon_status(groups, mounts, d, None)
                + "; last reload failed, running previous configuration: "@ + e
        }),
{
    reveal_strlit(" mount(s)");
    reveal_strlit("; degraded: ");
    reveal_strlit(" mount(s); degraded: ");
    let fine = DegradedView { groups: Set::empty(), sets: Set::empty() };
    assert(daemon_status(groups, mounts, fine, None) =~= decimal(groups) + " group(s), "@ + decimal(
        mounts,
    ) + " mount(s)"@);
    if d != fine {
        assert(daemon_status(groups, mounts, d, None) =~= decimal(groups) + " group(s), "@
            + decimal(mounts) + " mount(s); degraded: "@ + join(degraded_names(d), ", "@));
    }
    assert(daemon_status(groups, mounts, d, Some(e)) =~= daemon_status(groups, mounts, d, None)
        + "; last reload failed, running previous configuration: "@ + e);
}

/// Changes that were lost track of are warned of last, and only where there were
/// any.
pub proof fn law_overflows_are_logged(d: DegradedView, c: ChangesView)
    ensures
        ({
            let calm = ChangesView { overflow: false, ..c };
            let lost = ChangesView { overflow: true, ..c };
            let logs = change_records(d, lost);
            &&& logs.len() == change_records(d, calm).len() + 1
            &&& logs.drop_last() == change_records(d, calm)
            &&& logs.last().severity == Severity::Warn
        }),
{
    let calm = ChangesView { overflow: false, ..c };
    let lost = ChangesView { overflow: true, ..c };
    assert(change_records(d, lost).drop_last() =~= change_records(d, calm));
}

} // verus!
