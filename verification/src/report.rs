//! Human- and machine-readable reports for `byssus status` and
//! `byssus dry-run`.
use vstd::prelude::*;
use vstd::string::*;

use crate::logging::{quote, quoted};
use crate::name::{GroupId, GroupIdView, Name};
use crate::order::{in_order, is_text_before, text_before, KeySet, Table};
use crate::reconcile::note_identity;
use crate::reconcile::observe::{note_views, Note, NoteView, Observed, ObservedView};
use crate::reconcile::plan::{desired_views, finding_views, key_views, step_views, Action, ActionView, ConflictKind, DesiredView, Finding, FindingView, Plan, PlanView, SourceState, SourceView, StepView, UnmountReason, UnmountReasonView};
use crate::state::{KeyView, RecordKey, RecordView, State};
use crate::text::{byte_len, decimal, decimal_text, join, join_texts, push_decimal, texts};

verus! {

/// Severity of a check or group.
#[derive(Debug, Clone, Copy, PartialEq, Eq, PartialOrd, Ord, Structural)]
pub enum Level {
    /// Nothing is wrong.
    Fine,
    /// Works, but something needs attention.
    Warn,
    /// Does not work.
    Error,
}

impl Level {
    /// The name of the level.
    pub open spec fn text(self) -> Seq<char> {
        match self {
            Level::Fine => "ok"@,
            Level::Warn => "warn"@,
            Level::Error => "error"@,
        }
    }

    /// The worse of two levels.
    pub open spec fn worse(self, other: Level) -> Level {
        if self == Level::Error || other == Level::Error {
            Level::Error
        } else if self == Level::Warn || other == Level::Warn {
            Level::Warn
        } else {
            Level::Fine
        }
    }

    /// The name of the level.
    pub fn as_str(&self) -> (r: &'static str)
        ensures
            r@ == self.text(),
    {
        match self {
            Level::Fine => "ok",
            Level::Warn => "warn",
            Level::Error => "error",
        }
    }

    fn worst(self, other: Level) -> (r: Level)
        ensures
            r == self.worse(other),
    {
        if self == Level::Error || other == Level::Error {
            Level::Error
        } else if self == Level::Warn || other == Level::Warn {
            Level::Warn
        } else {
            Level::Fine
        }
    }
}

/// One environment or configuration check.
#[derive(Debug, PartialEq, Eq)]
pub struct Check {
    /// Dotted check name, e.g. `kernel.openat2`.
    pub name: String,
    /// Result.
    pub level: Level,
    /// Explanation.
    pub detail: String,
}

/// What a check stands for.
#[verifier::ext_equal]
pub struct CheckView {
    /// Check name.
    pub name: Seq<char>,
    /// Result.
    pub level: Level,
    /// Explanation.
    pub detail: Seq<char>,
}

impl View for Check {
    type V = CheckView;

    open spec fn view(&self) -> CheckView {
        CheckView { name: self.name@, level: self.level, detail: self.detail@ }
    }
}

impl Check {
    /// A new check.
    pub fn new(name: &str, level: Level, detail: &str) -> (r: Self)
        ensures
            r@ == (CheckView { name: name@, level, detail: detail@ }),
    {
        Check { name: name.to_owned(), level, detail: detail.to_owned() }
    }
}

/// The views of a list of checks.
pub open spec fn check_views(checks: Seq<Check>) -> Seq<CheckView> {
    checks.map_values(|c: Check| c@)
}

/// The state of one member.
#[derive(Debug, Clone, Copy, PartialEq, Eq, Structural)]
pub enum MemberState {
    /// Mounted and verified as ours.
    Mounted,
    /// Would be (or will be) mounted.
    WouldMount,
    /// Would be unmounted and mounted again.
    WouldRemount,
    /// Would be unmounted.
    WouldUnmount,
    /// A stale state record would be removed.
    StaleRecord,
    /// A conflicting mount is at the target.
    Conflict,
    /// Something is mounted at the target but ownership cannot be verified
    /// because the state file is unreadable.
    MountedOwnershipUnknown,
    /// The source cannot be resolved.
    SourceUnavailable,
    /// The target cannot be inspected.
    TargetUnavailable,
    /// Several members resolve to the same target.
    Collision,
    /// A location change is blocked.
    RelocationBlocked,
    /// The group could not be inspected.
    GroupUnavailable,
    /// A membership entry was rejected (bad name, not an empty regular
    /// file, or an unusable template interpolation).
    Rejected,
}

impl MemberState {
    /// The name of the state.
    pub open spec fn text(self) -> Seq<char> {
        match self {
            MemberState::Mounted => "mounted"@,
            MemberState::WouldMount => "would_mount"@,
            MemberState::WouldRemount => "would_remount"@,
            MemberState::WouldUnmount => "would_unmount"@,
            MemberState::StaleRecord => "stale_record"@,
            MemberState::Conflict => "conflict"@,
            MemberState::MountedOwnershipUnknown => "mounted_ownership_unknown"@,
            MemberState::SourceUnavailable => "source_unavailable"@,
            MemberState::TargetUnavailable => "target_unavailable"@,
            MemberState::Collision => "collision"@,
            MemberState::RelocationBlocked => "relocation_blocked"@,
            MemberState::GroupUnavailable => "group_unavailable"@,
            MemberState::Rejected => "rejected"@,
        }
    }

    /// How serious the state is.
    pub open spec fn severity(self) -> Level {
        match self {
            MemberState::SourceUnavailable | MemberState::RelocationBlocked
            | MemberState::Rejected => Level::Warn,
            MemberState::Conflict | MemberState::TargetUnavailable | MemberState::Collision
            | MemberState::GroupUnavailable => Level::Error,
            _ => Level::Fine,
        }
    }

    /// The name of the state.
    pub fn as_str(&self) -> (r: &'static str)
        ensures
            r@ == self.text(),
    {
        match self {
            MemberState::Mounted => "mounted",
            MemberState::WouldMount => "would_mount",
            MemberState::WouldRemount => "would_remount",
            MemberState::WouldUnmount => "would_unmount",
            MemberState::StaleRecord => "stale_record",
            MemberState::Conflict => "conflict",
            MemberState::MountedOwnershipUnknown => "mounted_ownership_unknown",
            MemberState::SourceUnavailable => "source_unavailable",
            MemberState::TargetUnavailable => "target_unavailable",
            MemberState::Collision => "collision",
            MemberState::RelocationBlocked => "relocation_blocked",
            MemberState::GroupUnavailable => "group_unavailable",
            MemberState::Rejected => "rejected",
        }
    }

    /// How serious the state is.
    pub fn level(&self) -> (r: Level)
        ensures
            r == self.severity(),
    {
        match self {
            MemberState::SourceUnavailable | MemberState::RelocationBlocked
            | MemberState::Rejected => Level::Warn,
            MemberState::Conflict | MemberState::TargetUnavailable | MemberState::Collision
            | MemberState::GroupUnavailable => Level::Error,
            _ => Level::Fine,
        }
    }
}

/// One member's status.
#[derive(Debug, PartialEq, Eq)]
pub struct MemberStatus {
    /// Group.
    pub group: String,
    /// Member.
    pub name: String,
    /// Target path (absent for rejected membership entries).
    pub target: Option<String>,
    /// State.
    pub state: MemberState,
    /// Extra detail.
    pub detail: Option<String>,
}

/// What a member's status stands for.
#[verifier::ext_equal]
pub struct MemberStatusView {
    /// Group.
    pub group: Seq<char>,
    /// Member.
    pub name: Seq<char>,
    /// Target path.
    pub target: Option<Seq<char>>,
    /// State.
    pub state: MemberState,
    /// Extra detail.
    pub detail: Option<Seq<char>>,
}

/// Text, where it may be absent.
pub open spec fn text_view(s: Option<String>) -> Option<Seq<char>> {
    match s {
        Some(s) => Some(s@),
        None => None,
    }
}

impl View for MemberStatus {
    type V = MemberStatusView;

    open spec fn view(&self) -> MemberStatusView {
        MemberStatusView {
            group: self.group@,
            name: self.name@,
            target: text_view(self.target),
            state: self.state,
            detail: text_view(self.detail),
        }
    }
}

fn clone_text(s: &Option<String>) -> (r: Option<String>)
    ensures
        text_view(r) == text_view(*s),
{
    match s {
        Some(s) => Some(s.clone()),
        None => None,
    }
}

impl Clone for MemberStatus {
    fn clone(&self) -> (r: Self)
        ensures
            r@ == self@,
    {
        MemberStatus {
            group: self.group.clone(),
            name: self.name.clone(),
            target: clone_text(&self.target),
            state: self.state,
            detail: clone_text(&self.detail),
        }
    }
}

/// The views of a list of statuses.
pub open spec fn status_views(statuses: Seq<MemberStatus>) -> Seq<MemberStatusView> {
    statuses.map_values(|s: MemberStatus| s@)
}

// Member statuses.

/// The status of a member.
pub open spec fn status_of(
    key: KeyView,
    target: Seq<char>,
    state: MemberState,
    detail: Option<Seq<char>>,
) -> MemberStatusView {
    MemberStatusView {
        group: key.group.text(),
        name: key.name,
        target: Some(target),
        state,
        detail,
    }
}

/// Every desired member counts as mounted, until something else is known.
pub open spec fn statuses_desired(desired: Seq<DesiredView>) -> Map<KeyView, MemberStatusView>
    decreases desired.len(),
{
    if desired.len() == 0 {
        Map::empty()
    } else {
        let d = desired.last();
        statuses_desired(desired.drop_last()).insert(
            d.key,
            status_of(d.key, d.target.text(), MemberState::Mounted, None),
        )
    }
}

/// The recorded members of frozen groups cannot be told.
pub open spec fn statuses_frozen(
    m: Map<KeyView, MemberStatusView>,
    state: Map<KeyView, RecordView>,
    frozen: Set<GroupIdView>,
    keys: Seq<KeyView>,
) -> Map<KeyView, MemberStatusView>
    decreases keys.len(),
{
    if keys.len() == 0 {
        m
    } else {
        let front = statuses_frozen(m, state, frozen, keys.drop_last());
        let record = state[keys.last()];
        if frozen.contains(record.group) {
            front.insert(
                record.key(),
                status_of(
                    record.key(),
                    record.target_location().text(),
                    MemberState::GroupUnavailable,
                    None,
                ),
            )
        } else {
            front
        }
    }
}

/// Whether a step of the first `n` unmounts the member.
pub open spec fn unmounts(steps: Seq<StepView>, n: int, key: KeyView) -> bool {
    exists|i: int|
        0 <= i < n && (#[trigger] steps[i]).action is Unmount && steps[i].action.key() == key
}

/// The status that a step gives a member, if it gives one.
pub open spec fn step_status(steps: Seq<StepView>, i: int) -> Option<(KeyView, MemberStatusView)> {
    match steps[i].action {
        ActionView::Unmount { record, reason } => Some(
            (
                record.key(),
                status_of(
                    record.key(),
                    record.target_location().text(),
                    MemberState::WouldUnmount,
                    match reason {
                        UnmountReasonView::SourceGone(e) => Some(e),
                        _ => None,
                    },
                ),
            ),
        ),
        ActionView::DropRecord { record, reason } => Some(
            (
                record.key(),
                status_of(
                    record.key(),
                    record.target_location().text(),
                    MemberState::StaleRecord,
                    None,
                ),
            ),
        ),
        ActionView::Mount { desired } => Some(
            (
                desired.key,
                status_of(
                    desired.key,
                    desired.target.text(),
                    if unmounts(steps, i, desired.key) {
                        MemberState::WouldRemount
                    } else {
                        MemberState::WouldMount
                    },
                    None,
                ),
            ),
        ),
        ActionView::Reattr { record, attrs } => None,
    }
}

/// The first `n` steps say what would become of their members.
pub open spec fn statuses_steps(
    m: Map<KeyView, MemberStatusView>,
    steps: Seq<StepView>,
    n: int,
) -> Map<KeyView, MemberStatusView>
    decreases n,
{
    if n <= 0 {
        m
    } else {
        let front = statuses_steps(m, steps, n - 1);
        match step_status(steps, n - 1) {
            Some((key, status)) => front.insert(key, status),
            None => front,
        }
    }
}

/// The members of a collision among `members` that did not keep the target.
pub open spec fn collided(
    m: Map<KeyView, MemberStatusView>,
    target: Seq<char>,
    members: Seq<KeyView>,
    kept: Option<KeyView>,
) -> Map<KeyView, MemberStatusView>
    decreases members.len(),
{
    if members.len() == 0 {
        m
    } else {
        let front = collided(m, target, members.drop_last(), kept);
        let key = members.last();
        if kept == Some(key) {
            front
        } else {
            front.insert(
                key,
                status_of(
                    key,
                    target,
                    MemberState::Collision,
                    match kept {
                        Some(k) => Some("target kept by "@ + k.text()),
                        None => None,
                    },
                ),
            )
        }
    }
}

/// What a finding says of members.
pub open spec fn found(
    m: Map<KeyView, MemberStatusView>,
    finding: FindingView,
    ownership_known: bool,
) -> Map<KeyView, MemberStatusView> {
    match finding {
        FindingView::Conflict { key, target, kind } => m.insert(
            key,
            status_of(
                key,
                target.text(),
                if !ownership_known && kind == ConflictKind::ForeignMount {
                    MemberState::MountedOwnershipUnknown
                } else {
                    MemberState::Conflict
                },
                None,
            ),
        ),
        FindingView::SourceUnavailable { key, source, reason } => m.insert(
            key,
            status_of(
                key,
                if m.contains_key(key) && m[key].target is Some {
                    m[key].target->0
                } else {
                    source.text()
                },
                MemberState::SourceUnavailable,
                Some(reason),
            ),
        ),
        FindingView::TargetUnavailable { key, target, reason } => m.insert(
            key,
            status_of(key, target.text(), MemberState::TargetUnavailable, Some(reason)),
        ),
        FindingView::TargetCollision { target, members, kept } => collided(
            m,
            target.text(),
            members,
            kept,
        ),
        FindingView::RelocationBlocked { key, old_target } => m.insert(
            key,
            status_of(key, old_target.text(), MemberState::RelocationBlocked, None),
        ),
    }
}

/// What the findings say of members, in order.
pub open spec fn statuses_found(
    m: Map<KeyView, MemberStatusView>,
    findings: Seq<FindingView>,
    ownership_known: bool,
) -> Map<KeyView, MemberStatusView>
    decreases findings.len(),
{
    if findings.len() == 0 {
        m
    } else {
        found(
            statuses_found(m, findings.drop_last(), ownership_known),
            findings.last(),
            ownership_known,
        )
    }
}

/// The status of every desired or recorded member.
pub open spec fn statuses_by_key(
    o: ObservedView,
    plan: PlanView,
    state: Map<KeyView, RecordView>,
    ownership_known: bool,
) -> Map<KeyView, MemberStatusView> {
    let desired = statuses_desired(o.desired);
    let frozen = statuses_frozen(desired, state, o.frozen, in_order::<RecordKey>(state.dom()));
    let planned = statuses_steps(frozen, plan.steps, plan.steps.len() as int);
    statuses_found(planned, plan.findings, ownership_known)
}

/// Whether a note is about a membership entry that was rejected.
pub open spec fn is_rejection(note: NoteView) -> bool {
    note is Rejected || note is InterpolationFailed || note is SetEntryRejected
}

/// The statuses of rejected membership entries, in order.
pub open spec fn statuses_noted(notes: Seq<NoteView>) -> Seq<MemberStatusView>
    decreases notes.len(),
{
    if notes.len() == 0 {
        Seq::empty()
    } else {
        let front = statuses_noted(notes.drop_last());
        let note = notes.last();
        if is_rejection(note) {
            front.push(
                MemberStatusView {
                    group: note.key().group,
                    name: note.key().subject,
                    target: None,
                    state: MemberState::Rejected,
                    detail: Some(note.detail()),
                },
            )
        } else {
            front
        }
    }
}

/// Whether one status comes before another: by group, then by name.
pub open spec fn status_before(a: MemberStatusView, b: MemberStatusView) -> bool {
    text_before(a.group, b.group) || (a.group == b.group && text_before(a.name, b.name))
}

/// A sorted list with a status put in after those that do not come after it.
pub open spec fn insert_status(sorted: Seq<MemberStatusView>, x: MemberStatusView) -> Seq<
    MemberStatusView,
>
    decreases sorted.len(),
{
    if sorted.len() == 0 || !status_before(x, sorted.last()) {
        sorted.push(x)
    } else {
        insert_status(sorted.drop_last(), x).push(sorted.last())
    }
}

/// The statuses sorted by group and name; equal ones keep their order.
pub open spec fn sorted_statuses(s: Seq<MemberStatusView>) -> Seq<MemberStatusView>
    decreases s.len(),
{
    if s.len() == 0 {
        Seq::empty()
    } else {
        insert_status(sorted_statuses(s.drop_last()), s.last())
    }
}

/// The statuses of all members and rejected entries.
pub open spec fn all_statuses(
    o: ObservedView,
    plan: PlanView,
    state: Map<KeyView, RecordView>,
    ownership_known: bool,
) -> Seq<MemberStatusView> {
    let m = statuses_by_key(o, plan, state, ownership_known);
    sorted_statuses(
        in_order::<RecordKey>(m.dom()).map_values(|k: KeyView| m[k]) + statuses_noted(o.notes),
    )
}

fn set(
    map: &mut Table<RecordKey, MemberStatus>,
    key: &RecordKey,
    target: String,
    state: MemberState,
    detail: Option<String>,
)
    ensures
        final(map)@ == old(map)@.insert(
            key@,
            status_of(key@, target@, state, text_view(detail)),
        ),
{
    let _ = map.insert(
        key.clone(),
        MemberStatus {
            group: key.group.text(),
            name: key.name.as_str().to_owned(),
            target: Some(target),
            state,
            detail,
        },
    );
}

fn set_desired(observed: &Observed) -> (r: Table<RecordKey, MemberStatus>)
    ensures
        r@ == statuses_desired(observed@.desired),
{
    let mut map: Table<RecordKey, MemberStatus> = Table::new();
    let ghost views = desired_views(observed.desired@);
    let mut i: usize = 0;
    while i < observed.desired.len()
        invariant
            i <= observed.desired@.len(),
            views == desired_views(observed.desired@),
            map@ == statuses_desired(views.take(i as int)),
        decreases observed.desired@.len() - i,
    {
        let d = &observed.desired[i];
        proof {
            assert(views.take(i + 1).drop_last() =~= views.take(i as int));
            assert(views.take(i + 1).last() == d@);
        }
        set(&mut map, &d.key, d.target.text(), MemberState::Mounted, None);
        i += 1;
    }
    assert(views.take(views.len() as int) =~= views);
    map
}

fn set_frozen(map: &mut Table<RecordKey, MemberStatus>, state: &State, frozen: &KeySet<GroupId>)
    ensures
        final(map)@ == statuses_frozen(
            old(map)@,
            state@,
            frozen@,
            in_order::<RecordKey>(state@.dom()),
        ),
{
    let ghost start = map@;
    let n: usize = state.len();
    let ghost keys = state.keys();
    let mut i: usize = 0;
    while i < n
        invariant
            i <= n,
            n == keys.len(),
            keys == state.keys(),
            map@ == statuses_frozen(start, state@, frozen@, keys.take(i as int)),
        decreases n - i,
    {
        let record = state.record_at(i);
        proof {
            assert(keys.take(i + 1).drop_last() =~= keys.take(i as int));
            assert(keys.take(i + 1).last() == keys[i as int]);
        }
        if frozen.contains(&record.group) {
            set(
                map,
                &record.key(),
                record.target_location().text(),
                MemberState::GroupUnavailable,
                None,
            );
        }
        i += 1;
    }
    assert(keys.take(keys.len() as int) =~= keys);
}

fn set_steps(map: &mut Table<RecordKey, MemberStatus>, plan: &Plan)
    ensures
        final(map)@ == statuses_steps(old(map)@, plan@.steps, plan@.steps.len() as int),
{
    let ghost start = map@;
    let ghost views = step_views(plan.steps@);
    let mut unmounting: KeySet<RecordKey> = KeySet::new();
    let mut i: usize = 0;
    while i < plan.steps.len()
        invariant
            i <= plan.steps@.len(),
            views == step_views(plan.steps@),
            map@ == statuses_steps(start, views, i as int),
            forall|k: KeyView| #[trigger] unmounting@.contains(k) <==> unmounts(views, i as int, k),
        decreases plan.steps@.len() - i,
    {
        let ghost before = unmounting@;
        assert(views[i as int] == plan.steps@[i as int]@);
        match &plan.steps[i].action {
            Action::Unmount { record, reason } => {
                let key = record.key();
                let detail = match reason {
                    UnmountReason::SourceGone(e) => Some(e.clone()),
                    _ => None,
                };
                set(
                    map,
                    &key,
                    record.target_location().text(),
                    MemberState::WouldUnmount,
                    detail,
                );
                let _ = unmounting.insert(key);
            },
            Action::DropRecord { record, reason: _ } => {
                set(
                    map,
                    &record.key(),
                    record.target_location().text(),
                    MemberState::StaleRecord,
                    None,
                );
            },
            Action::Mount { desired } => {
                let state = if unmounting.contains(&desired.key) {
                    MemberState::WouldRemount
                } else {
                    MemberState::WouldMount
                };
                set(map, &desired.key, desired.target.text(), state, None);
            },
            Action::Reattr { record: _, attrs: _ } => {},
        }
        i += 1;
        assert forall|k: KeyView| #[trigger] unmounting@.contains(k) implies unmounts(
            views,
            i as int,
            k,
        ) by {
            if before.contains(k) {
                let j = choose|j: int|
                    0 <= j < i - 1 && (#[trigger] views[j]).action is Unmount
                        && views[j].action.key() == k;
                assert(views[j].action.key() == k);
            } else {
                assert(views[i - 1].action.key() == k);
            }
        }
        assert forall|k: KeyView| unmounts(views, i as int, k) implies #[trigger] unmounting@.contains(k) by {
            let j = choose|j: int|
                0 <= j < i && (#[trigger] views[j]).action is Unmount && views[j].action.key() == k;
            if j < i - 1 {
                assert(unmounts(views, i - 1, k));
            }
        }
    }
}

fn set_collided(
    map: &mut Table<RecordKey, MemberStatus>,
    target: &str,
    members: &Vec<RecordKey>,
    kept: &Option<RecordKey>,
)
    ensures
        final(map)@ == collided(
            old(map)@,
            target@,
            key_views(members@),
            match kept {
                Some(k) => Some(k@),
                None => None,
            },
        ),
{
    let ghost start = map@;
    let ghost views = key_views(members@);
    let ghost kept_view: Option<KeyView> = match kept {
        Some(k) => Some(k@),
        None => None,
    };
    let mut i: usize = 0;
    while i < members.len()
        invariant
            i <= members@.len(),
            views == key_views(members@),
            kept_view == (match kept {
                Some(k) => Some(k@),
                None => None,
            }),
            map@ == collided(start, target@, views.take(i as int), kept_view),
        decreases members@.len() - i,
    {
        let key = &members[i];
        proof {
            assert(views.take(i + 1).drop_last() =~= views.take(i as int));
            assert(views.take(i + 1).last() == key@);
        }
        let keeps = match kept {
            Some(k) => k.same(key),
            None => false,
        };
        if !keeps {
            let detail = match kept {
                Some(k) => {
                    let mut text = String::new();
                    text.append("target kept by ");
                    text.append(k.text().as_str());
                    assert(text@ =~= "target kept by "@ + k@.text());
                    Some(text)
                },
                None => None,
            };
            set(map, key, target.to_owned(), MemberState::Collision, detail);
        }
        i += 1;
    }
    assert(views.take(views.len() as int) =~= views);
}

fn apply_finding(map: &mut Table<RecordKey, MemberStatus>, finding: &Finding, ownership_known: bool)
    ensures
        final(map)@ == found(old(map)@, finding@, ownership_known),
{
    match finding {
        Finding::Conflict { key, target, kind } => {
            let state = if !ownership_known && *kind == ConflictKind::ForeignMount {
                MemberState::MountedOwnershipUnknown
            } else {
                MemberState::Conflict
            };
            set(map, key, target.text(), state, None);
        },
        Finding::SourceUnavailable { key, source, reason } => {
            let known = match map.get(key) {
                Some(status) => clone_text(&status.target),
                None => None,
            };
            let target = match known {
                Some(target) => target,
                None => source.text(),
            };
            set(map, key, target, MemberState::SourceUnavailable, Some(reason.clone()));
        },
        Finding::TargetUnavailable { key, target, reason } => {
            set(
                map,
                key,
                target.text(),
                MemberState::TargetUnavailable,
                Some(reason.clone()),
            );
        },
        Finding::TargetCollision { target, members, kept } => {
            set_collided(map, target.text().as_str(), members, kept);
        },
        Finding::RelocationBlocked { key, old_target } => {
            set(map, key, old_target.text(), MemberState::RelocationBlocked, None);
        },
    }
}

fn apply_findings(
    map: &mut Table<RecordKey, MemberStatus>,
    findings: &Vec<Finding>,
    ownership_known: bool,
)
    ensures
        final(map)@ == statuses_found(old(map)@, finding_views(findings@), ownership_known),
{
    let ghost start = map@;
    let ghost views = finding_views(findings@);
    let mut i: usize = 0;
    while i < findings.len()
        invariant
            i <= findings@.len(),
            views == finding_views(findings@),
            map@ == statuses_found(start, views.take(i as int), ownership_known),
        decreases findings@.len() - i,
    {
        proof {
            assert(views.take(i + 1).drop_last() =~= views.take(i as int));
            assert(views.take(i + 1).last() == findings@[i as int]@);
        }
        apply_finding(map, &findings[i], ownership_known);
        i += 1;
    }
    assert(views.take(views.len() as int) =~= views);
}

fn is_status_before(a: &MemberStatus, b: &MemberStatus) -> (r: bool)
    ensures
        r == status_before(a@, b@),
{
    is_text_before(a.group.as_str(), b.group.as_str()) || (crate::text::same(
        a.group.as_str(),
        b.group.as_str(),
    ) && is_text_before(a.name.as_str(), b.name.as_str()))
}

proof fn lemma_insert_at(sorted: Seq<MemberStatusView>, x: MemberStatusView, at: int)
    requires
        0 <= at <= sorted.len(),
        at > 0 ==> !status_before(x, sorted[at - 1]),
        forall|i: int| at <= i < sorted.len() ==> status_before(x, #[trigger] sorted[i]),
    ensures
        insert_status(sorted, x) == sorted.insert(at, x),
    decreases sorted.len(),
{
    if at == sorted.len() {
        assert(sorted.insert(at, x) =~= sorted.push(x));
    } else {
        assert(sorted[sorted.len() - 1] == sorted.last());
        assert forall|i: int| at <= i < sorted.drop_last().len() implies status_before(
            x,
            #[trigger] sorted.drop_last()[i],
        ) by {
            assert(sorted.drop_last()[i] == sorted[i]);
        }
        lemma_insert_at(sorted.drop_last(), x, at);
        assert(sorted.insert(at, x) =~= sorted.drop_last().insert(at, x).push(sorted.last()));
    }
}

fn insert_sorted(sorted: &mut Vec<MemberStatus>, x: MemberStatus)
    ensures
        status_views(final(sorted)@) == insert_status(status_views(old(sorted)@), x@),
{
    let ghost views = status_views(sorted@);
    let ghost added = x@;
    let mut at: usize = sorted.len();
    while at > 0 && is_status_before(&x, &sorted[at - 1])
        invariant
            at <= sorted@.len(),
            views == status_views(sorted@),
            added == x@,
            forall|i: int| at <= i < views.len() ==> status_before(added, #[trigger] views[i]),
        decreases at,
    {
        assert(views[at - 1] == sorted@[at - 1]@);
        at -= 1;
    }
    proof {
        if at > 0 {
            assert(views[at - 1] == sorted@[at - 1]@);
        }
        lemma_insert_at(views, added, at as int);
    }
    sorted.insert(at, x);
    assert(status_views(sorted@) =~= views.insert(at as int, added));
}

/// Derives member statuses from a planned (not executed) pass.
pub fn member_statuses(observed: &Observed, plan: &Plan, state: &State, ownership_known: bool) -> (r:
    Vec<MemberStatus>)
    ensures
        status_views(r@) == all_statuses(observed@, plan@, state@, ownership_known),
{
    let mut map = set_desired(observed);
    set_frozen(&mut map, state, &observed.frozen);
    set_steps(&mut map, plan);
    apply_findings(&mut map, &plan.findings, ownership_known);
    let ghost m = map@;
    let ghost keys = map.keys();
    let ghost members = keys.map_values(|k: KeyView| m[k]);
    let ghost noted = statuses_noted(observed@.notes);
    let ghost all = members + noted;
    let n: usize = map.len();
    let mut out: Vec<MemberStatus> = Vec::new();
    let mut i: usize = 0;
    assert(status_views(out@) =~= sorted_statuses(all.take(0)));
    while i < n
        invariant
            i <= n,
            n == keys.len(),
            keys == map.keys(),
            m == map@,
            members == keys.map_values(|k: KeyView| m[k]),
            all == members + noted,
            status_views(out@) == sorted_statuses(all.take(i as int)),
        decreases n - i,
    {
        let status = map.value_at(i);
        proof {
            assert(all.take(i + 1).drop_last() =~= all.take(i as int));
            assert(all.take(i + 1).last() == status@);
        }
        insert_sorted(&mut out, status.clone());
        i += 1;
    }
    let ghost notes = note_views(observed.notes@);
    let mut k: usize = 0;
    assert(statuses_noted(notes.take(0)).len() == 0);
    while k < observed.notes.len()
        invariant
            k <= observed.notes@.len(),
            notes == note_views(observed.notes@),
            noted == statuses_noted(notes),
            all == members + noted,
            n == members.len(),
            statuses_noted(notes.take(k as int)).len() <= noted.len(),
            statuses_noted(notes.take(k as int)) == noted.take(
                statuses_noted(notes.take(k as int)).len() as int,
            ),
            status_views(out@) == sorted_statuses(
                all.take(n + statuses_noted(notes.take(k as int)).len()),
            ),
        decreases observed.notes@.len() - k,
    {
        let note = &observed.notes[k];
        let ghost before = statuses_noted(notes.take(k as int));
        let ghost after = statuses_noted(notes.take(k + 1));
        proof {
            assert(notes.take(k + 1).drop_last() =~= notes.take(k as int));
            assert(notes.take(k + 1).last() == note@);
            lemma_noted_prefix(notes, k + 1);
        }
        let rejection = match note {
            Note::Rejected { .. } => true,
            Note::InterpolationFailed { .. } => true,
            Note::SetEntryRejected { .. } => true,
            _ => false,
        };
        if rejection {
            let (key, detail) = note_identity(note);
            let status = MemberStatus {
                group: key.group,
                name: key.subject,
                target: None,
                state: MemberState::Rejected,
                detail: Some(detail),
            };
            proof {
                let at = n + before.len();
                assert(after =~= before.push(status@));
                assert(noted[before.len() as int] == after[before.len() as int]);
                assert(all.take(at + 1).drop_last() =~= all.take(at));
                assert(all.take(at + 1).last() == status@);
            }
            insert_sorted(&mut out, status);
        }
        k += 1;
    }
    proof {
        assert(notes.take(notes.len() as int) =~= notes);
        assert(all.take(n + noted.len()) =~= all);
    }
    out
}

proof fn lemma_noted_prefix(notes: Seq<NoteView>, k: int)
    requires
        0 <= k <= notes.len(),
    ensures
        statuses_noted(notes.take(k)).len() <= statuses_noted(notes).len(),
        statuses_noted(notes.take(k)) == statuses_noted(notes).take(
            statuses_noted(notes.take(k)).len() as int,
        ),
    decreases notes.len() - k,
{
    let part = statuses_noted(notes.take(k));
    let all = statuses_noted(notes);
    if k == notes.len() {
        assert(notes.take(k) =~= notes);
        assert(all.take(all.len() as int) =~= all);
    } else {
        lemma_noted_prefix(notes, k + 1);
        assert(notes.take(k + 1).drop_last() =~= notes.take(k));
        let next = statuses_noted(notes.take(k + 1));
        assert(part =~= next.take(part.len() as int));
        assert(part =~= all.take(part.len() as int));
    }
}

// Group reports.

/// Per-group summary for `dry-run`.
#[derive(Debug, PartialEq, Eq)]
pub struct GroupReport {
    /// Group name.
    pub name: String,
    /// Overall level.
    pub status: Level,
    /// Membership directory path and whether it is readable.
    pub membership_dir: String,
    /// Target root propagation.
    pub propagation: String,
    /// Valid members.
    pub members: usize,
    /// Rejected membership entries.
    pub rejected: usize,
    /// Hidden membership entries ignored.
    pub ignored: usize,
    /// Members whose source resolves.
    pub sources_valid: usize,
    /// Members whose source does not resolve.
    pub sources_missing: usize,
    /// Verified existing mounts.
    pub existing_mounts: usize,
    /// Mounts a reconcile would create (including remounts).
    pub would_create: usize,
    /// Mounts a reconcile would remove (including remounts).
    pub would_remove: usize,
    /// Conflicts and collisions.
    pub conflicts: usize,
    /// Group-level problems.
    pub problems: Vec<String>,
}

/// What a group summary stands for.
#[verifier::ext_equal]
pub struct GroupReportView {
    /// Group name.
    pub name: Seq<char>,
    /// Overall level.
    pub status: Level,
    /// Membership directory path and whether it is readable.
    pub membership_dir: Seq<char>,
    /// Target root propagation.
    pub propagation: Seq<char>,
    /// Valid members.
    pub members: nat,
    /// Rejected membership entries.
    pub rejected: nat,
    /// Hidden membership entries ignored.
    pub ignored: nat,
    /// Members whose source resolves.
    pub sources_valid: nat,
    /// Members whose source does not resolve.
    pub sources_missing: nat,
    /// Verified existing mounts.
    pub existing_mounts: nat,
    /// Mounts a reconcile would create.
    pub would_create: nat,
    /// Mounts a reconcile would remove.
    pub would_remove: nat,
    /// Conflicts and collisions.
    pub conflicts: nat,
    /// Group-level problems.
    pub problems: Seq<Seq<char>>,
}

impl View for GroupReport {
    type V = GroupReportView;

    open spec fn view(&self) -> GroupReportView {
        GroupReportView {
            name: self.name@,
            status: self.status,
            membership_dir: self.membership_dir@,
            propagation: self.propagation@,
            members: self.members as nat,
            rejected: self.rejected as nat,
            ignored: self.ignored as nat,
            sources_valid: self.sources_valid as nat,
            sources_missing: self.sources_missing as nat,
            existing_mounts: self.existing_mounts as nat,
            would_create: self.would_create as nat,
            would_remove: self.would_remove as nat,
            conflicts: self.conflicts as nat,
            problems: texts(self.problems@),
        }
    }
}

/// The views of a list of group summaries.
pub open spec fn report_views(reports: Seq<GroupReport>) -> Seq<GroupReportView> {
    reports.map_values(|r: GroupReport| r@)
}

/// What is known of a group from elsewhere.
#[derive(Debug, PartialEq, Eq)]
pub struct GroupExtra {
    /// Target root propagation.
    pub propagation: String,
    /// Its level.
    pub level: Level,
    /// Group-level problems.
    pub problems: Vec<String>,
}

/// What is known of a group from elsewhere.
#[verifier::ext_equal]
pub struct GroupExtraView {
    /// Target root propagation.
    pub propagation: Seq<char>,
    /// Its level.
    pub level: Level,
    /// Group-level problems.
    pub problems: Seq<Seq<char>>,
}

impl View for GroupExtra {
    type V = GroupExtraView;

    open spec fn view(&self) -> GroupExtraView {
        GroupExtraView {
            propagation: self.propagation@,
            level: self.level,
            problems: texts(self.problems@),
        }
    }
}

/// How many elements there are of which `p` holds.
pub open spec fn count<T>(s: Seq<T>, p: spec_fn(T) -> bool) -> nat
    decreases s.len(),
{
    if s.len() == 0 {
        0
    } else {
        count(s.drop_last(), p) + (if p(s.last()) {
            1nat
        } else {
            0nat
        })
    }
}

/// Whether a note is about a rejected entry of the group.
pub open spec fn rejects_in(group: GroupIdView) -> spec_fn(NoteView) -> bool {
    |n: NoteView|
        match n {
            NoteView::Rejected { group: g, rejection } => g == group,
            NoteView::InterpolationFailed { group: g, name, field, error } => g == group,
            _ => false,
        }
}

/// Why the membership directory of the group could not be read, if a note says
/// so.
pub open spec fn unreadable_by(group: GroupIdView, note: NoteView) -> Option<Seq<char>> {
    match note {
        NoteView::MembershipUnreadable { group: g, error } if g == group => Some(error),
        NoteView::MembershipDeleted { group: g } if g == group => Some(
            "directory has been deleted"@,
        ),
        _ => None,
    }
}

/// What the first note on it says.
pub open spec fn unreadable(group: GroupIdView, notes: Seq<NoteView>) -> Option<Seq<char>>
    decreases notes.len(),
{
    if notes.len() == 0 {
        None
    } else {
        match unreadable(group, notes.drop_last()) {
            Some(e) => Some(e),
            None => unreadable_by(group, notes.last()),
        }
    }
}

/// Whether a desired mount is of the group, and its source resolves or not.
pub open spec fn source_is(
    group: GroupIdView,
    sources: Map<KeyView, SourceView>,
    valid: bool,
) -> spec_fn(DesiredView) -> bool {
    |d: DesiredView|
        d.key.group == group && (sources.contains_key(d.key) && sources[d.key] is Resolved) == valid
}

/// Whether a step mounts a member of the group.
pub open spec fn creates_in(group: GroupIdView) -> spec_fn(StepView) -> bool {
    |s: StepView| s.action is Mount && s.action.key().group == group
}

/// Whether a step unmounts a member of the group.
pub open spec fn removes_in(group: GroupIdView) -> spec_fn(StepView) -> bool {
    |s: StepView| s.action is Unmount && s.action.key().group == group
}

/// Whether a status is of the group, and its mount exists.
pub open spec fn exists_in(group: Seq<char>) -> spec_fn(MemberStatusView) -> bool {
    |s: MemberStatusView|
        s.group == group && (s.state == MemberState::Mounted || s.state
            == MemberState::WouldRemount)
}

/// Whether a status is of the group, and a conflict.
pub open spec fn conflicts_in(group: Seq<char>) -> spec_fn(MemberStatusView) -> bool {
    |s: MemberStatusView|
        s.group == group && (s.state == MemberState::Conflict || s.state == MemberState::Collision)
}

/// The worst level among the members of the group.
pub open spec fn worst_member(group: Seq<char>, statuses: Seq<MemberStatusView>) -> Level
    decreases statuses.len(),
{
    if statuses.len() == 0 {
        Level::Fine
    } else {
        let front = worst_member(group, statuses.drop_last());
        if statuses.last().group == group {
            front.worse(statuses.last().state.severity())
        } else {
            front
        }
    }
}

/// What is known of a group from elsewhere, if nothing is.
pub open spec fn extra_of(extra: Map<GroupIdView, GroupExtraView>, group: GroupIdView) -> GroupExtraView {
    if extra.contains_key(group) {
        extra[group]
    } else {
        GroupExtraView { propagation: "unknown"@, level: Level::Warn, problems: Seq::empty() }
    }
}

/// The summary of a group.
pub open spec fn group_report(
    group: GroupIdView,
    membership: Seq<char>,
    o: ObservedView,
    plan: PlanView,
    statuses: Seq<MemberStatusView>,
    extra: Map<GroupIdView, GroupExtraView>,
) -> GroupReportView {
    let name = group.text();
    let known = extra_of(extra, group);
    let why = unreadable(group, o.notes);
    let scanned = o.members.contains_key(group);
    let rejected = count(o.notes, rejects_in(group));
    let worst = worst_member(name, statuses).worse(known.level);
    let readable = if why is Some || !scanned {
        Level::Error
    } else {
        worst
    };
    GroupReportView {
        name,
        status: if rejected > 0 {
            readable.worse(Level::Warn)
        } else {
            readable
        },
        membership_dir: membership + (match why {
            None => if scanned {
                " (readable)"@
            } else {
                " (not inspected)"@
            },
            Some(_) => " (unreadable)"@,
        }),
        propagation: known.propagation,
        members: if scanned {
            in_order::<Name>(o.members[group]).len()
        } else {
            0
        },
        rejected,
        ignored: if o.ignored.contains_key(group) {
            o.ignored[group].len()
        } else {
            0
        },
        sources_valid: count(o.desired, source_is(group, o.sources, true)),
        sources_missing: count(o.desired, source_is(group, o.sources, false)),
        existing_mounts: count(statuses, exists_in(name)),
        would_create: count(plan.steps, creates_in(group)),
        would_remove: count(plan.steps, removes_in(group)),
        conflicts: count(statuses, conflicts_in(name)),
        problems: match why {
            None => known.problems,
            Some(e) => known.problems.push("membership directory unreadable: "@ + e),
        },
    }
}

fn count_rejected(group: &GroupId, notes: &Vec<Note>) -> (r: usize)
    ensures
        r == count(note_views(notes@), rejects_in(group@)),
        r <= notes@.len(),
{
    let ghost views = note_views(notes@);
    let mut n: usize = 0;
    let mut i: usize = 0;
    while i < notes.len()
        invariant
            i <= notes@.len(),
            n <= i,
            views == note_views(notes@),
            n == count(views.take(i as int), rejects_in(group@)),
        decreases notes@.len() - i,
    {
        proof {
            assert(views.take(i + 1).drop_last() =~= views.take(i as int));
            assert(views.take(i + 1).last() == notes@[i as int]@);
        }
        let ours = match &notes[i] {
            Note::Rejected { group: g, rejection: _ } => g.same(group),
            Note::InterpolationFailed { group: g, name: _, field: _, error: _ } => g.same(group),
            _ => false,
        };
        if ours {
            n += 1;
        }
        i += 1;
    }
    assert(views.take(views.len() as int) =~= views);
    n
}

proof fn lemma_unreadable_stays(group: GroupIdView, notes: Seq<NoteView>, n: int)
    requires
        0 <= n <= notes.len(),
        unreadable(group, notes.take(n)) is Some,
    ensures
        unreadable(group, notes) == unreadable(group, notes.take(n)),
    decreases notes.len() - n,
{
    if n < notes.len() {
        assert(notes.take(n + 1).drop_last() =~= notes.take(n));
        lemma_unreadable_stays(group, notes, n + 1);
    } else {
        assert(notes.take(n) =~= notes);
    }
}

fn find_unreadable(group: &GroupId, notes: &Vec<Note>) -> (r: Option<String>)
    ensures
        text_view(r) == unreadable(group@, note_views(notes@)),
{
    let ghost views = note_views(notes@);
    let mut i: usize = 0;
    while i < notes.len()
        invariant
            i <= notes@.len(),
            views == note_views(notes@),
            unreadable(group@, views.take(i as int)) is None,
        decreases notes@.len() - i,
    {
        proof {
            assert(views.take(i + 1).drop_last() =~= views.take(i as int));
            assert(views.take(i + 1).last() == notes@[i as int]@);
        }
        let why = match &notes[i] {
            Note::MembershipUnreadable { group: g, error } => if g.same(group) {
                Some(error.clone())
            } else {
                None
            },
            Note::MembershipDeleted { group: g } => if g.same(group) {
                Some("directory has been deleted".to_owned())
            } else {
                None
            },
            _ => None,
        };
        if why.is_some() {
            proof {
                lemma_unreadable_stays(group@, views, i + 1);
            }
            return why;
        }
        i += 1;
    }
    assert(views.take(views.len() as int) =~= views);
    None
}

fn count_sources(group: &GroupId, observed: &Observed) -> (r: (usize, usize))
    ensures
        r.0 == count(observed@.desired, source_is(group@, observed@.sources, true)),
        r.1 == count(observed@.desired, source_is(group@, observed@.sources, false)),
{
    let ghost views = desired_views(observed.desired@);
    let ghost sources = observed@.sources;
    let mut valid: usize = 0;
    let mut missing: usize = 0;
    let mut i: usize = 0;
    while i < observed.desired.len()
        invariant
            i <= observed.desired@.len(),
            valid <= i,
            missing <= i,
            views == desired_views(observed.desired@),
            sources == observed.observations.sources@,
            valid == count(views.take(i as int), source_is(group@, sources, true)),
            missing == count(views.take(i as int), source_is(group@, sources, false)),
        decreases observed.desired@.len() - i,
    {
        let d = &observed.desired[i];
        proof {
            assert(views.take(i + 1).drop_last() =~= views.take(i as int));
            assert(views.take(i + 1).last() == d@);
        }
        if d.key.group.same(group) {
            let resolved = match observed.observations.sources.get(&d.key) {
                Some(SourceState::Resolved(_)) => true,
                _ => false,
            };
            if resolved {
                valid += 1;
            } else {
                missing += 1;
            }
        }
        i += 1;
    }
    assert(views.take(views.len() as int) =~= views);
    (valid, missing)
}

fn count_steps(group: &GroupId, plan: &Plan) -> (r: (usize, usize))
    ensures
        r.0 == count(plan@.steps, creates_in(group@)),
        r.1 == count(plan@.steps, removes_in(group@)),
{
    let ghost views = step_views(plan.steps@);
    let mut create: usize = 0;
    let mut remove: usize = 0;
    let mut i: usize = 0;
    while i < plan.steps.len()
        invariant
            i <= plan.steps@.len(),
            create <= i,
            remove <= i,
            views == step_views(plan.steps@),
            create == count(views.take(i as int), creates_in(group@)),
            remove == count(views.take(i as int), removes_in(group@)),
        decreases plan.steps@.len() - i,
    {
        proof {
            assert(views.take(i + 1).drop_last() =~= views.take(i as int));
            assert(views.take(i + 1).last() == plan.steps@[i as int]@);
        }
        match &plan.steps[i].action {
            Action::Mount { desired } => {
                if desired.key.group.same(group) {
                    create += 1;
                }
            },
            Action::Unmount { record, reason: _ } => {
                if record.group.same(group) {
                    remove += 1;
                }
            },
            _ => {},
        }
        i += 1;
    }
    assert(views.take(views.len() as int) =~= views);
    (create, remove)
}

fn count_statuses(name: &str, statuses: &Vec<MemberStatus>) -> (r: (usize, usize, Level))
    ensures
        r.0 == count(status_views(statuses@), exists_in(name@)),
        r.1 == count(status_views(statuses@), conflicts_in(name@)),
        r.2 == worst_member(name@, status_views(statuses@)),
{
    let ghost views = status_views(statuses@);
    let mut existing: usize = 0;
    let mut conflicts: usize = 0;
    let mut worst = Level::Fine;
    let mut i: usize = 0;
    while i < statuses.len()
        invariant
            i <= statuses@.len(),
            existing <= i,
            conflicts <= i,
            views == status_views(statuses@),
            existing == count(views.take(i as int), exists_in(name@)),
            conflicts == count(views.take(i as int), conflicts_in(name@)),
            worst == worst_member(name@, views.take(i as int)),
        decreases statuses@.len() - i,
    {
        let s = &statuses[i];
        proof {
            assert(views.take(i + 1).drop_last() =~= views.take(i as int));
            assert(views.take(i + 1).last() == s@);
        }
        if crate::text::same(s.group.as_str(), name) {
            if s.state == MemberState::Mounted || s.state == MemberState::WouldRemount {
                existing += 1;
            }
            if s.state == MemberState::Conflict || s.state == MemberState::Collision {
                conflicts += 1;
            }
            worst = worst.worst(s.state.level());
        }
        i += 1;
    }
    assert(views.take(views.len() as int) =~= views);
    (existing, conflicts, worst)
}

fn clone_texts(v: &Vec<String>) -> (r: Vec<String>)
    ensures
        texts(r@) == texts(v@),
{
    let mut out: Vec<String> = Vec::new();
    let mut i: usize = 0;
    while i < v.len()
        invariant
            i <= v@.len(),
            texts(out@) =~= texts(v@).take(i as int),
        decreases v@.len() - i,
    {
        let ghost before = texts(out@);
        out.push(v[i].clone());
        assert(texts(out@) =~= before.push(v@[i as int]@));
        i += 1;
    }
    assert(texts(out@) =~= texts(v@));
    out
}

fn report_group(
    group: &GroupId,
    membership: &str,
    observed: &Observed,
    plan: &Plan,
    statuses: &Vec<MemberStatus>,
    extra: &Table<GroupId, GroupExtra>,
) -> (r: GroupReport)
    ensures
        r@ == group_report(
            group@,
            membership@,
            observed@,
            plan@,
            status_views(statuses@),
            extra@,
        ),
{
    let name = group.text();
    let rejected: usize = count_rejected(group, &observed.notes);
    let unreadable = find_unreadable(group, &observed.notes);
    let (sources_valid, sources_missing) = count_sources(group, observed);
    let (would_create, would_remove) = count_steps(group, plan);
    let (existing_mounts, conflicts, member_level) = count_statuses(name.as_str(), statuses);
    let (propagation, level, mut problems) = match extra.get(group) {
        Some(known) => (known.propagation.clone(), known.level, clone_texts(&known.problems)),
        None => {
            let none: Vec<String> = Vec::new();
            assert(texts(none@) =~= Seq::<Seq<char>>::empty());
            ("unknown".to_owned(), Level::Warn, none)
        },
    };
    let scanned = observed.members.contains_key(group);
    let mut membership_dir = membership.to_owned();
    match &unreadable {
        None => {
            membership_dir.append(
                if scanned {
                    " (readable)"
                } else {
                    " (not inspected)"
                },
            );
        },
        Some(error) => {
            let mut text = String::new();
            text.append("membership directory unreadable: ");
            text.append(error.as_str());
            assert(text@ =~= "membership directory unreadable: "@ + error@);
            let ghost before = texts(problems@);
            let ghost added = text@;
            problems.push(text);
            assert(texts(problems@) =~= before.push(added));
            membership_dir.append(" (unreadable)");
        },
    }
    let mut status = member_level.worst(level);
    if unreadable.is_some() || !scanned {
        status = Level::Error;
    }
    if rejected > 0 {
        status = status.worst(Level::Warn);
    }
    let members: usize = match observed.members.get(group) {
        Some(names) => names.len(),
        None => 0,
    };
    let ignored: usize = match observed.ignored.get(group) {
        Some(names) => {
            assert(names@.len() == names.0@.len());
            names.0.len()
        },
        None => 0,
    };
    GroupReport {
        name,
        status,
        membership_dir,
        propagation,
        members,
        rejected,
        ignored,
        sources_valid,
        sources_missing,
        existing_mounts,
        would_create,
        would_remove,
        conflicts,
        problems,
    }
}

/// Builds per-group summaries. `propagation` and `problems` are supplied by
/// the caller per group, with their levels.
pub fn group_reports(
    groups: &Vec<(GroupId, String)>,
    observed: &Observed,
    plan: &Plan,
    statuses: &Vec<MemberStatus>,
    extra: &Table<GroupId, GroupExtra>,
) -> (r: Vec<GroupReport>)
    ensures
        r@.len() == groups@.len(),
        forall|i: int|
            0 <= i < r@.len() ==> (#[trigger] r@[i])@ == group_report(
                groups@[i].0@,
                groups@[i].1@,
                observed@,
                plan@,
                status_views(statuses@),
                extra@,
            ),
{
    let mut out: Vec<GroupReport> = Vec::new();
    let mut i: usize = 0;
    while i < groups.len()
        invariant
            i <= groups@.len(),
            out@.len() == i,
            forall|j: int|
                0 <= j < i ==> (#[trigger] out@[j])@ == group_report(
                    groups@[j].0@,
                    groups@[j].1@,
                    observed@,
                    plan@,
                    status_views(statuses@),
                    extra@,
                ),
        decreases groups@.len() - i,
    {
        let report = report_group(
            &groups[i].0,
            groups[i].1.as_str(),
            observed,
            plan,
            statuses,
            extra,
        );
        out.push(report);
        i += 1;
    }
    out
}

// Text.

/// Blanks.
pub open spec fn blanks(n: int) -> Seq<char>
    decreases n,
{
    if n <= 0 {
        Seq::empty()
    } else {
        blanks(n - 1).push(' ')
    }
}

/// A text filled up with blanks to a width.
pub open spec fn padded(s: Seq<char>, width: nat) -> Seq<char> {
    s + blanks(width - s.len())
}

fn push_padded(out: &mut String, s: &str, width: usize)
    ensures
        final(out)@ == old(out)@ + padded(s@, width as nat),
{
    let ghost start = out@;
    let n: usize = crate::text::chars_of(s).len();
    out.append(s);
    let ghost base = out@;
    let mut k: usize = n;
    while k < width
        invariant
            n <= k,
            k <= width || k == n,
            out@ == base + blanks(k - n),
        decreases width - k,
    {
        out.push(' ');
        k += 1;
        assert(out@ =~= base + blanks(k - n));
    }
    assert(out@ =~= start + padded(s@, width as nat));
}

/// The widest name among checks, in bytes.
pub open spec fn widest(checks: Seq<CheckView>) -> nat
    decreases checks.len(),
{
    if checks.len() == 0 {
        0
    } else {
        let front = widest(checks.drop_last());
        if byte_len(checks.last().name) > front {
            byte_len(checks.last().name)
        } else {
            front
        }
    }
}

/// A check as a line of text.
pub open spec fn check_line(c: CheckView, width: nat) -> Seq<char> {
    padded(c.name, width) + " = "@ + c.level.text() + (if c.detail.len() == 0 {
        Seq::empty()
    } else {
        " ("@ + c.detail + ")"@
    }) + "\n"@
}

/// Checks as lines of text.
pub open spec fn check_lines(checks: Seq<CheckView>, width: nat) -> Seq<char>
    decreases checks.len(),
{
    if checks.len() == 0 {
        Seq::empty()
    } else {
        check_lines(checks.drop_last(), width) + check_line(checks.last(), width)
    }
}

/// A row of a group summary.
pub open spec fn row(key: Seq<char>, value: Seq<char>) -> Seq<char> {
    "  "@ + padded(key, 16) + " = "@ + value + "\n"@
}

/// Rows of a group summary.
pub open spec fn rows(all: Seq<(Seq<char>, Seq<char>)>) -> Seq<char>
    decreases all.len(),
{
    if all.len() == 0 {
        Seq::empty()
    } else {
        rows(all.drop_last()) + row(all.last().0, all.last().1)
    }
}

/// The rows that every group summary has.
pub open spec fn group_rows(g: GroupReportView) -> Seq<(Seq<char>, Seq<char>)> {
    seq![
        ("membership_dir"@, g.membership_dir),
        ("propagation"@, g.propagation),
        ("members"@, decimal(g.members)),
        ("rejected"@, decimal(g.rejected)),
        ("ignored"@, decimal(g.ignored)),
        ("sources_valid"@, decimal(g.sources_valid)),
        ("sources_missing"@, decimal(g.sources_missing)),
        ("existing_mounts"@, decimal(g.existing_mounts)),
        ("would_create"@, decimal(g.would_create)),
        ("would_remove"@, decimal(g.would_remove)),
        ("conflicts"@, decimal(g.conflicts)),
    ]
}

/// A group summary as text; problems are shown where there are any.
pub open spec fn group_text(g: GroupReportView) -> Seq<char> {
    let problems = join(g.problems, "; "@);
    "\ngroup="@ + g.name + "  status="@ + g.status.text() + "\n"@ + rows(group_rows(g)) + (
    if problems.len() == 0 {
        Seq::empty()
    } else {
        row("problems"@, problems)
    })
}

/// Group summaries as text.
pub open spec fn group_texts(groups: Seq<GroupReportView>) -> Seq<char>
    decreases groups.len(),
{
    if groups.len() == 0 {
        Seq::empty()
    } else {
        group_texts(groups.drop_last()) + group_text(groups.last())
    }
}

/// A status as a line of text.
pub open spec fn member_line(m: MemberStatusView) -> Seq<char> {
    m.group + "/"@ + m.name + "  state="@ + m.state.text() + (match m.target {
        Some(target) => "  target="@ + quoted(target),
        None => Seq::empty(),
    }) + (match m.detail {
        Some(detail) => "  detail="@ + quoted(detail),
        None => Seq::empty(),
    }) + "\n"@
}

/// The lines of the statuses that are shown: all, or those that are not simply
/// mounted.
pub open spec fn member_lines(members: Seq<MemberStatusView>, all: bool) -> Seq<char>
    decreases members.len(),
{
    if members.len() == 0 {
        Seq::empty()
    } else {
        let front = member_lines(members.drop_last(), all);
        if all || members.last().state != MemberState::Mounted {
            front + member_line(members.last())
        } else {
            front
        }
    }
}

/// Whether some status is shown.
pub open spec fn any_shown(members: Seq<MemberStatusView>, all: bool) -> bool {
    exists|i: int|
        0 <= i < members.len() && (all || (#[trigger] members[i]).state != MemberState::Mounted)
}

/// The statuses that are shown, set off by an empty line.
pub open spec fn members_text(members: Seq<MemberStatusView>, all: bool) -> Seq<char> {
    if any_shown(members, all) {
        "\n"@ + member_lines(members, all)
    } else {
        Seq::empty()
    }
}

fn push_row(out: &mut String, key: &str, value: &str)
    ensures
        final(out)@ == old(out)@ + row(key@, value@),
{
    let ghost start = out@;
    out.append("  ");
    push_padded(out, key, 16);
    out.append(" = ");
    out.append(value);
    out.append("\n");
    assert(out@ =~= start + row(key@, value@));
}

fn push_check(out: &mut String, c: &Check, width: usize)
    ensures
        final(out)@ == old(out)@ + check_line(c@, width as nat),
{
    let ghost start = out@;
    push_padded(out, c.name.as_str(), width);
    out.append(" = ");
    out.append(c.level.as_str());
    if !c.detail.as_str().is_empty() {
        out.append(" (");
        out.append(c.detail.as_str());
        out.append(")");
    }
    out.append("\n");
    assert(out@ =~= start + check_line(c@, width as nat));
}

fn push_next(
    out: &mut String,
    key: &str,
    value: &str,
    Ghost(start): Ghost<Seq<char>>,
    Ghost(all): Ghost<Seq<(Seq<char>, Seq<char>)>>,
    Ghost(k): Ghost<int>,
)
    requires
        0 <= k < all.len(),
        all[k] == (key@, value@),
        old(out)@ == start + rows(all.take(k)),
    ensures
        final(out)@ == start + rows(all.take(k + 1)),
{
    push_row(out, key, value);
    proof {
        assert(all.take(k + 1).drop_last() =~= all.take(k));
        assert(start + (rows(all.take(k)) + row(key@, value@)) =~= start + rows(all.take(k)) + row(
            key@,
            value@,
        ));
    }
}

fn push_rows(out: &mut String, g: &GroupReport)
    ensures
        final(out)@ == old(out)@ + rows(group_rows(g@)),
{
    let ghost start = out@;
    let ghost all = group_rows(g@);
    assert(out@ =~= start + rows(all.take(0)));
    push_next(out, "membership_dir", g.membership_dir.as_str(), Ghost(start), Ghost(all), Ghost(0));
    push_next(out, "propagation", g.propagation.as_str(), Ghost(start), Ghost(all), Ghost(1));
    push_next(out, "members", decimal_text(g.members as u64).as_str(), Ghost(start), Ghost(all), Ghost(2));
    push_next(out, "rejected", decimal_text(g.rejected as u64).as_str(), Ghost(start), Ghost(all), Ghost(3));
    push_next(out, "ignored", decimal_text(g.ignored as u64).as_str(), Ghost(start), Ghost(all), Ghost(4));
    push_next(out, "sources_valid", decimal_text(g.sources_valid as u64).as_str(), Ghost(start), Ghost(all), Ghost(5));
    push_next(out, "sources_missing", decimal_text(g.sources_missing as u64).as_str(), Ghost(start), Ghost(all), Ghost(6));
    push_next(out, "existing_mounts", decimal_text(g.existing_mounts as u64).as_str(), Ghost(start), Ghost(all), Ghost(7));
    push_next(out, "would_create", decimal_text(g.would_create as u64).as_str(), Ghost(start), Ghost(all), Ghost(8));
    push_next(out, "would_remove", decimal_text(g.would_remove as u64).as_str(), Ghost(start), Ghost(all), Ghost(9));
    push_next(out, "conflicts", decimal_text(g.conflicts as u64).as_str(), Ghost(start), Ghost(all), Ghost(10));
    assert(all.take(11) =~= all);
}

fn push_group(out: &mut String, g: &GroupReport)
    ensures
        final(out)@ == old(out)@ + group_text(g@),
{
    let ghost start = out@;
    out.append("\ngroup=");
    out.append(g.name.as_str());
    out.append("  status=");
    out.append(g.status.as_str());
    out.append("\n");
    push_rows(out, g);
    let problems = join_texts(&g.problems, "; ");
    if !problems.as_str().is_empty() {
        push_row(out, "problems", problems.as_str());
    }
    assert(out@ =~= start + group_text(g@));
}

fn push_member(out: &mut String, m: &MemberStatus)
    ensures
        final(out)@ == old(out)@ + member_line(m@),
{
    let ghost start = out@;
    out.append(m.group.as_str());
    out.append("/");
    out.append(m.name.as_str());
    out.append("  state=");
    out.append(m.state.as_str());
    if let Some(target) = &m.target {
        out.append("  target=");
        out.append(quote(target.as_str()).as_str());
    }
    if let Some(detail) = &m.detail {
        out.append("  detail=");
        out.append(quote(detail.as_str()).as_str());
    }
    out.append("\n");
    assert(out@ =~= start + member_line(m@));
}

fn render_members(out: &mut String, members: &Vec<MemberStatus>, all: bool)
    ensures
        final(out)@ == old(out)@ + members_text(status_views(members@), all),
{
    let ghost start = out@;
    let ghost views = status_views(members@);
    let mut lines = String::new();
    let mut shown: bool = false;
    let mut i: usize = 0;
    assert(lines@ =~= member_lines(views.take(0), all));
    while i < members.len()
        invariant
            i <= members@.len(),
            views == status_views(members@),
            lines@ == member_lines(views.take(i as int), all),
            shown == exists|j: int|
                0 <= j < i && (all || (#[trigger] views[j]).state != MemberState::Mounted),
        decreases members@.len() - i,
    {
        let m = &members[i];
        proof {
            assert(views.take(i + 1).drop_last() =~= views.take(i as int));
            assert(views.take(i + 1).last() == m@);
            assert(views[i as int] == m@);
        }
        if all || m.state != MemberState::Mounted {
            push_member(&mut lines, m);
            shown = true;
        }
        i += 1;
    }
    assert(views.take(views.len() as int) =~= views);
    if shown {
        out.append("\n");
        out.append(lines.as_str());
    }
    assert(out@ =~= start + members_text(views, all));
}

/// The `dry-run` report.
#[derive(Debug, PartialEq, Eq)]
pub struct DryRunReport {
    /// Environment and configuration checks.
    pub checks: Vec<Check>,
    /// Per-group summaries.
    pub groups: Vec<GroupReport>,
    /// Per-member detail.
    pub members: Vec<MemberStatus>,
}

/// What a `dry-run` report stands for.
#[verifier::ext_equal]
pub struct DryRunView {
    /// Environment and configuration checks.
    pub checks: Seq<CheckView>,
    /// Per-group summaries.
    pub groups: Seq<GroupReportView>,
    /// Per-member detail.
    pub members: Seq<MemberStatusView>,
}

impl View for DryRunReport {
    type V = DryRunView;

    open spec fn view(&self) -> DryRunView {
        DryRunView {
            checks: check_views(self.checks@),
            groups: report_views(self.groups@),
            members: status_views(self.members@),
        }
    }
}

/// The worst level among checks.
pub open spec fn worst_check(checks: Seq<CheckView>) -> Level
    decreases checks.len(),
{
    if checks.len() == 0 {
        Level::Fine
    } else {
        worst_check(checks.drop_last()).worse(checks.last().level)
    }
}

/// The worst level among group summaries.
pub open spec fn worst_group(groups: Seq<GroupReportView>) -> Level
    decreases groups.len(),
{
    if groups.len() == 0 {
        Level::Fine
    } else {
        worst_group(groups.drop_last()).worse(groups.last().status)
    }
}

/// The worst level among members.
pub open spec fn worst_status(members: Seq<MemberStatusView>) -> Level
    decreases members.len(),
{
    if members.len() == 0 {
        Level::Fine
    } else {
        worst_status(members.drop_last()).worse(members.last().state.severity())
    }
}

impl DryRunReport {
    /// The worst level in the report.
    pub fn level(&self) -> (r: Level)
        ensures
            r == worst_check(self@.checks).worse(worst_group(self@.groups)),
    {
        let ghost checks = check_views(self.checks@);
        let ghost groups = report_views(self.groups@);
        let mut a = Level::Fine;
        let mut i: usize = 0;
        while i < self.checks.len()
            invariant
                i <= self.checks@.len(),
                checks == check_views(self.checks@),
                a == worst_check(checks.take(i as int)),
            decreases self.checks@.len() - i,
        {
            proof {
                assert(checks.take(i + 1).drop_last() =~= checks.take(i as int));
                assert(checks.take(i + 1).last() == self.checks@[i as int]@);
            }
            a = a.worst(self.checks[i].level);
            i += 1;
        }
        assert(checks.take(checks.len() as int) =~= checks);
        let mut b = Level::Fine;
        let mut k: usize = 0;
        while k < self.groups.len()
            invariant
                k <= self.groups@.len(),
                groups == report_views(self.groups@),
                b == worst_group(groups.take(k as int)),
            decreases self.groups@.len() - k,
        {
            proof {
                assert(groups.take(k + 1).drop_last() =~= groups.take(k as int));
                assert(groups.take(k + 1).last() == self.groups@[k as int]@);
            }
            b = b.worst(self.groups[k].status);
            k += 1;
        }
        assert(groups.take(groups.len() as int) =~= groups);
        a.worst(b)
    }

    fn width(&self) -> (r: usize)
        ensures
            r == widest(self@.checks),
    {
        let ghost checks = check_views(self.checks@);
        let mut w: usize = 0;
        let mut i: usize = 0;
        while i < self.checks.len()
            invariant
                i <= self.checks@.len(),
                checks == check_views(self.checks@),
                w == widest(checks.take(i as int)),
            decreases self.checks@.len() - i,
        {
            proof {
                assert(checks.take(i + 1).drop_last() =~= checks.take(i as int));
                assert(checks.take(i + 1).last() == self.checks@[i as int]@);
            }
            let n: usize = self.checks[i].name.as_str().as_bytes().len();
            if n > w {
                w = n;
            }
            i += 1;
        }
        assert(checks.take(checks.len() as int) =~= checks);
        w
    }

    /// Renders as aligned `key = value` text.
    pub fn to_text(&self) -> (r: String)
        ensures
            r@ == check_lines(self@.checks, widest(self@.checks)) + group_texts(self@.groups)
                + members_text(self@.members, false),
    {
        let ghost checks = check_views(self.checks@);
        let ghost groups = report_views(self.groups@);
        let width: usize = self.width();
        let mut out = String::new();
        let mut i: usize = 0;
        assert(out@ =~= check_lines(checks.take(0), width as nat));
        while i < self.checks.len()
            invariant
                i <= self.checks@.len(),
                checks == check_views(self.checks@),
                out@ == check_lines(checks.take(i as int), width as nat),
            decreases self.checks@.len() - i,
        {
            proof {
                assert(checks.take(i + 1).drop_last() =~= checks.take(i as int));
                assert(checks.take(i + 1).last() == self.checks@[i as int]@);
            }
            push_check(&mut out, &self.checks[i], width);
            i += 1;
        }
        assert(checks.take(checks.len() as int) =~= checks);
        let ghost head = out@;
        let mut k: usize = 0;
        assert(out@ =~= head + group_texts(groups.take(0)));
        while k < self.groups.len()
            invariant
                k <= self.groups@.len(),
                groups == report_views(self.groups@),
                out@ == head + group_texts(groups.take(k as int)),
            decreases self.groups@.len() - k,
        {
            proof {
                assert(groups.take(k + 1).drop_last() =~= groups.take(k as int));
                assert(groups.take(k + 1).last() == self.groups@[k as int]@);
            }
            push_group(&mut out, &self.groups[k]);
            k += 1;
            assert(out@ =~= head + group_texts(groups.take(k as int)));
        }
        assert(groups.take(groups.len() as int) =~= groups);
        render_members(&mut out, &self.members, false);
        out
    }
}

/// The `status` report.
#[derive(Debug, PartialEq, Eq)]
pub struct StatusReport {
    /// State file path.
    pub state_file: String,
    /// Whether the state file could be read.
    pub ownership_known: bool,
    /// Notes (for example why the state file could not be read).
    pub notes: Vec<String>,
    /// Number of hidden membership entries ignored, per group.
    pub ignored: Table<String, usize>,
    /// Every desired or recorded member, and rejected membership entries.
    pub members: Vec<MemberStatus>,
}

/// What a `status` report stands for.
#[verifier::ext_equal]
pub struct StatusReportView {
    /// State file path.
    pub state_file: Seq<char>,
    /// Whether the state file could be read.
    pub ownership_known: bool,
    /// Notes.
    pub notes: Seq<Seq<char>>,
    /// Number of hidden membership entries ignored, per group.
    pub ignored: Map<Seq<char>, usize>,
    /// Statuses.
    pub members: Seq<MemberStatusView>,
}

impl View for StatusReport {
    type V = StatusReportView;

    open spec fn view(&self) -> StatusReportView {
        StatusReportView {
            state_file: self.state_file@,
            ownership_known: self.ownership_known,
            notes: texts(self.notes@),
            ignored: self.ignored@,
            members: status_views(self.members@),
        }
    }
}

/// Notes as lines of text.
pub open spec fn note_lines(notes: Seq<Seq<char>>) -> Seq<char>
    decreases notes.len(),
{
    if notes.len() == 0 {
        Seq::empty()
    } else {
        note_lines(notes.drop_last()) + ("note: "@ + notes.last() + "\n"@)
    }
}

/// The number of hidden entries of a group as a line of text.
pub open spec fn ignored_line(group: Seq<char>, n: usize) -> Seq<char> {
    "ignored: group '"@ + group + "': "@ + decimal(n as nat) + " hidden entr"@ + (if n == 1 {
        "y"@
    } else {
        "ies"@
    }) + "\n"@
}

/// The numbers of hidden entries as lines of text.
pub open spec fn ignored_lines(ignored: Map<Seq<char>, usize>, groups: Seq<Seq<char>>) -> Seq<char>
    decreases groups.len(),
{
    if groups.len() == 0 {
        Seq::empty()
    } else {
        ignored_lines(ignored, groups.drop_last()) + ignored_line(
            groups.last(),
            ignored[groups.last()],
        )
    }
}

/// A `status` report as text.
pub open spec fn status_text(s: StatusReportView) -> Seq<char> {
    "state_file = "@ + s.state_file + (if s.ownership_known {
        Seq::empty()
    } else {
        " (unreadable: ownership unknown)"@
    }) + "\n"@ + note_lines(s.notes) + ignored_lines(
        s.ignored,
        in_order::<String>(s.ignored.dom()),
    ) + (if s.members.len() == 0 {
        "\nno members\n"@
    } else {
        Seq::empty()
    }) + members_text(s.members, true)
}

fn push_ignored(out: &mut String, group: &str, n: usize)
    ensures
        final(out)@ == old(out)@ + ignored_line(group@, n),
{
    let ghost start = out@;
    out.append("ignored: group '");
    out.append(group);
    out.append("': ");
    push_decimal(out, n as u64);
    out.append(" hidden entr");
    out.append(
        if n == 1 {
            "y"
        } else {
            "ies"
        },
    );
    out.append("\n");
    assert(out@ =~= start + ignored_line(group@, n));
}

impl StatusReport {
    /// The worst member level.
    pub fn level(&self) -> (r: Level)
        ensures
            r == worst_status(self@.members),
    {
        let ghost members = status_views(self.members@);
        let mut a = Level::Fine;
        let mut i: usize = 0;
        while i < self.members.len()
            invariant
                i <= self.members@.len(),
                members == status_views(self.members@),
                a == worst_status(members.take(i as int)),
            decreases self.members@.len() - i,
        {
            proof {
                assert(members.take(i + 1).drop_last() =~= members.take(i as int));
                assert(members.take(i + 1).last() == self.members@[i as int]@);
            }
            a = a.worst(self.members[i].state.level());
            i += 1;
        }
        assert(members.take(members.len() as int) =~= members);
        a
    }

    /// Renders as text.
    pub fn to_text(&self) -> (r: String)
        ensures
            r@ == status_text(self@),
    {
        let mut out = String::new();
        out.append("state_file = ");
        out.append(self.state_file.as_str());
        if !self.ownership_known {
            out.append(" (unreadable: ownership unknown)");
        }
        out.append("\n");
        let ghost head = out@;
        let ghost notes = texts(self.notes@);
        let mut i: usize = 0;
        assert(out@ =~= head + note_lines(notes.take(0)));
        while i < self.notes.len()
            invariant
                i <= self.notes@.len(),
                notes == texts(self.notes@),
                out@ == head + note_lines(notes.take(i as int)),
            decreases self.notes@.len() - i,
        {
            proof {
                assert(notes.take(i + 1).drop_last() =~= notes.take(i as int));
                assert(notes.take(i + 1).last() == self.notes@[i as int]@);
            }
            out.append("note: ");
            out.append(self.notes[i].as_str());
            out.append("\n");
            i += 1;
            assert(out@ =~= head + note_lines(notes.take(i as int)));
        }
        assert(notes.take(notes.len() as int) =~= notes);
        let ghost noted = out@;
        let n: usize = self.ignored.len();
        let ghost groups = self.ignored.keys();
        let mut k: usize = 0;
        assert(out@ =~= noted + ignored_lines(self.ignored@, groups.take(0)));
        while k < n
            invariant
                k <= n,
                n == groups.len(),
                groups == self.ignored.keys(),
                out@ == noted + ignored_lines(self.ignored@, groups.take(k as int)),
            decreases n - k,
        {
            proof {
                assert(groups.take(k + 1).drop_last() =~= groups.take(k as int));
                assert(groups.take(k + 1).last() == groups[k as int]);
            }
            push_ignored(&mut out, self.ignored.key_at(k).as_str(), *self.ignored.value_at(k));
            k += 1;
            assert(out@ =~= noted + ignored_lines(self.ignored@, groups.take(k as int)));
        }
        assert(groups.take(groups.len() as int) =~= groups);
        assert(status_views(self.members@).len() == self.members@.len());
        if self.members.len() == 0 {
            out.append("\nno members\n");
        }
        render_members(&mut out, &self.members, true);
        assert(out@ =~= status_text(self@));
        out
    }
}

// Laws.

proof fn lemma_insert_sorted(sorted: Seq<MemberStatusView>, x: MemberStatusView)
    requires
        forall|i: int, j: int|
            0 <= i < j < sorted.len() ==> !status_before(
                #[trigger] sorted[j],
                #[trigger] sorted[i],
            ),
    ensures
        ({
            let r = insert_status(sorted, x);
            &&& r.len() == sorted.len() + 1
            &&& r.to_multiset() == sorted.to_multiset().insert(x)
            &&& forall|i: int, j: int|
                0 <= i < j < r.len() ==> !status_before(#[trigger] r[j], #[trigger] r[i])
        }),
    decreases sorted.len(),
{
    lemma_status_order();
    let lt = |a: MemberStatusView, b: MemberStatusView| status_before(a, b);
    if sorted.len() == 0 || !status_before(x, sorted.last()) {
        sorted.to_multiset_ensures();
        let r = sorted.push(x);
        assert forall|i: int, j: int| 0 <= i < j < r.len() implies !status_before(
            #[trigger] r[j],
            #[trigger] r[i],
        ) by {
            if j == sorted.len() && i < sorted.len() - 1 {
                assert(!status_before(sorted[sorted.len() - 1], sorted[i]));
                assert(lt(x, sorted[i]) && !lt(sorted.last(), sorted[i]) ==> lt(x, sorted.last())
                    || x == sorted.last());
                assert(lt(sorted[i], sorted.last()) || sorted[i] == sorted.last() || lt(
                    sorted.last(),
                    sorted[i],
                ) || (sorted[i].group == sorted.last().group && sorted[i].name
                    == sorted.last().name));
            }
        }
    } else {
        let front = sorted.drop_last();
        let last = sorted.last();
        assert forall|i: int, j: int| 0 <= i < j < front.len() implies !status_before(
            #[trigger] front[j],
            #[trigger] front[i],
        ) by {
            assert(!status_before(sorted[j], sorted[i]));
        }
        lemma_insert_sorted(front, x);
        let inner = insert_status(front, x);
        let r = inner.push(last);
        inner.to_multiset_ensures();
        front.to_multiset_ensures();
        assert(sorted =~= front.push(last));
        assert(r.to_multiset() =~= sorted.to_multiset().insert(x));
        assert forall|i: int, j: int| 0 <= i < j < r.len() implies !status_before(
            #[trigger] r[j],
            #[trigger] r[i],
        ) by {
            if j == inner.len() {
                assert(inner.to_multiset().contains(inner[i])) by {
                    inner.to_multiset_ensures();
                    assert(inner.contains(inner[i]));
                }
                assert(inner[i] == x || front.to_multiset().contains(inner[i]));
                if inner[i] == x {
                    assert(lt(x, last));
                } else {
                    assert(front.contains(inner[i]));
                    let k = choose|k: int| 0 <= k < front.len() && front[k] == inner[i];
                    assert(sorted[k] == inner[i]);
                    assert(!status_before(sorted[sorted.len() - 1], sorted[k]));
                }
            }
        }
    }
}

proof fn lemma_status_order()
    ensures
        forall|a: MemberStatusView| !#[trigger] status_before(a, a),
        forall|a: MemberStatusView, b: MemberStatusView, c: MemberStatusView|
            #[trigger] status_before(a, b) && #[trigger] status_before(b, c) ==> status_before(a, c),
        forall|a: MemberStatusView, b: MemberStatusView|
            #[trigger] status_before(a, b) || status_before(b, a) || (a.group == b.group && a.name
                == b.name),
{
    crate::order::lemma_text_order();
    let text = |a: Seq<char>, b: Seq<char>| text_before(a, b);
    assert forall|a: MemberStatusView| !#[trigger] status_before(a, a) by {
        assert(!text(a.group, a.group));
        assert(!text(a.name, a.name));
    }
    assert forall|a: MemberStatusView, b: MemberStatusView, c: MemberStatusView|
        #[trigger] status_before(a, b) && #[trigger] status_before(b, c) implies status_before(
        a,
        c,
    ) by {
        assert(text(a.group, b.group) && text(b.group, c.group) ==> text(a.group, c.group));
        assert(text(a.name, b.name) && text(b.name, c.name) ==> text(a.name, c.name));
    }
    assert forall|a: MemberStatusView, b: MemberStatusView| #[trigger]
        status_before(a, b) || status_before(b, a) || (a.group == b.group && a.name == b.name) by {
        assert(text(a.group, b.group) || a.group == b.group || text(b.group, a.group));
        assert(text(a.name, b.name) || a.name == b.name || text(b.name, a.name));
    }
}

/// Statuses are reported in order of group and name, and sorting them neither
/// adds nor loses any.
pub proof fn law_statuses_are_sorted(s: Seq<MemberStatusView>)
    ensures
        sorted_statuses(s).to_multiset() == s.to_multiset(),
        forall|i: int, j: int|
            0 <= i < j < s.len() ==> !status_before(
                #[trigger] sorted_statuses(s)[j],
                #[trigger] sorted_statuses(s)[i],
            ),
        sorted_statuses(s).len() == s.len(),
    decreases s.len(),
{
    if s.len() > 0 {
        law_statuses_are_sorted(s.drop_last());
        lemma_insert_sorted(sorted_statuses(s.drop_last()), s.last());
        s.drop_last().to_multiset_ensures();
        assert(s =~= s.drop_last().push(s.last()));
    } else {
        assert(s =~= sorted_statuses(s));
    }
}

} // verus!
