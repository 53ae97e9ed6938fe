//! What reports show of members and groups, stated over the plan, the findings
//! and the observations that they are made from.
use vstd::prelude::*;

use crate::name::{GroupIdView, Name};
use crate::order::in_order;
use crate::reconcile::observe::{NoteView, ObservedView};
use crate::reconcile::plan::{ActionView, ConflictKind, DesiredView, FindingView, PlanView, StepView};
use crate::reconcile::rows::is_about;
use crate::report::{collided, found, group_report, statuses_by_key, statuses_desired, statuses_found, statuses_frozen, statuses_noted, statuses_steps, step_status, unmounts, unreadable, worst_check, worst_group, worst_member, worst_status, CheckView, GroupExtraView, GroupReportView, Level, MemberState, MemberStatusView};
use crate::state::{keyed, KeyView, RecordKey, RecordView};

verus! {

// Levels.

/// The worst of two levels is the worse one, whichever comes first: an error
/// outweighs a warning, and a warning outweighs nothing wrong.
pub proof fn law_the_worse_level_counts(a: Level, b: Level)
    ensures
        a.worse(b) == b.worse(a),
        a.worse(b) == Level::Error <==> a == Level::Error || b == Level::Error,
        a.worse(b) == Level::Fine <==> a == Level::Fine && b == Level::Fine,
{
}

/// A member state is an error where a mount is in the way or nothing could be
/// learned, a warning where the member cannot be had, and fine where all is
/// mounted or will be.
pub proof fn law_states_have_their_level(state: MemberState)
    ensures
        state.severity() == Level::Error <==> {
            ||| state == MemberState::Conflict
            ||| state == MemberState::TargetUnavailable
            ||| state == MemberState::Collision
            ||| state == MemberState::GroupUnavailable
        },
        state.severity() == Level::Warn <==> {
            ||| state == MemberState::SourceUnavailable
            ||| state == MemberState::RelocationBlocked
            ||| state == MemberState::Rejected
        },
{
}

/// The level of checks, of groups and of members is an error if one of them is
/// an error, and fine if all of them are.
pub proof fn law_one_error_is_enough(
    checks: Seq<CheckView>,
    groups: Seq<GroupReportView>,
    members: Seq<MemberStatusView>,
)
    ensures
        worst_check(checks) == Level::Error <==> exists|i: int|
            0 <= i < checks.len() && (#[trigger] checks[i]).level == Level::Error,
        worst_check(checks) == Level::Fine <==> forall|i: int|
            0 <= i < checks.len() ==> (#[trigger] checks[i]).level == Level::Fine,
        worst_group(groups) == Level::Error <==> exists|i: int|
            0 <= i < groups.len() && (#[trigger] groups[i]).status == Level::Error,
        worst_group(groups) == Level::Fine <==> forall|i: int|
            0 <= i < groups.len() ==> (#[trigger] groups[i]).status == Level::Fine,
        worst_status(members) == Level::Error <==> exists|i: int|
            0 <= i < members.len() && (#[trigger] members[i]).state.severity() == Level::Error,
        worst_status(members) == Level::Fine <==> forall|i: int|
            0 <= i < members.len() ==> (#[trigger] members[i]).state.severity() == Level::Fine,
{
    lemma_checks(checks);
    lemma_groups(groups);
    lemma_members(members);
}

proof fn lemma_checks(checks: Seq<CheckView>)
    ensures
        worst_check(checks) == Level::Error <==> exists|i: int|
            0 <= i < checks.len() && (#[trigger] checks[i]).level == Level::Error,
        worst_check(checks) == Level::Fine <==> forall|i: int|
            0 <= i < checks.len() ==> (#[trigger] checks[i]).level == Level::Fine,
    decreases checks.len(),
{
    if checks.len() > 0 {
        let front = checks.drop_last();
        lemma_checks(front);
        assert(forall|i: int| 0 <= i < front.len() ==> #[trigger] front[i] == checks[i]);
        assert(checks[checks.len() - 1] == checks.last());
        if exists|i: int| 0 <= i < checks.len() && (#[trigger] checks[i]).level == Level::Error {
            let i = choose|i: int|
                0 <= i < checks.len() && (#[trigger] checks[i]).level == Level::Error;
            if i < front.len() {
                assert(front[i].level == Level::Error);
            }
        }
        if forall|i: int| 0 <= i < front.len() ==> (#[trigger] front[i]).level == Level::Fine {
            assert forall|i: int| 0 <= i < checks.len() - 1 implies (
            #[trigger] checks[i]).level == Level::Fine by {
                assert(front[i] == checks[i]);
            }
        }
    }
}

proof fn lemma_groups(groups: Seq<GroupReportView>)
    ensures
        worst_group(groups) == Level::Error <==> exists|i: int|
            0 <= i < groups.len() && (#[trigger] groups[i]).status == Level::Error,
        worst_group(groups) == Level::Fine <==> forall|i: int|
            0 <= i < groups.len() ==> (#[trigger] groups[i]).status == Level::Fine,
    decreases groups.len(),
{
    if groups.len() > 0 {
        let front = groups.drop_last();
        lemma_groups(front);
        assert(forall|i: int| 0 <= i < front.len() ==> #[trigger] front[i] == groups[i]);
        assert(groups[groups.len() - 1] == groups.last());
        if exists|i: int| 0 <= i < groups.len() && (#[trigger] groups[i]).status == Level::Error {
            let i = choose|i: int|
                0 <= i < groups.len() && (#[trigger] groups[i]).status == Level::Error;
            if i < front.len() {
                assert(front[i].status == Level::Error);
            }
        }
        if forall|i: int| 0 <= i < front.len() ==> (#[trigger] front[i]).status == Level::Fine {
            assert forall|i: int| 0 <= i < groups.len() - 1 implies (
            #[trigger] groups[i]).status == Level::Fine by {
                assert(front[i] == groups[i]);
            }
        }
    }
}

proof fn lemma_members(members: Seq<MemberStatusView>)
    ensures
        worst_status(members) == Level::Error <==> exists|i: int|
            0 <= i < members.len() && (#[trigger] members[i]).state.severity() == Level::Error,
        worst_status(members) == Level::Fine <==> forall|i: int|
            0 <= i < members.len() ==> (#[trigger] members[i]).state.severity() == Level::Fine,
    decreases members.len(),
{
    if members.len() > 0 {
        let front = members.drop_last();
        lemma_members(front);
        assert(forall|i: int| 0 <= i < front.len() ==> #[trigger] front[i] == members[i]);
        assert(members[members.len() - 1] == members.last());
        if exists|i: int|
            0 <= i < members.len() && (#[trigger] members[i]).state.severity() == Level::Error {
            let i = choose|i: int|
                0 <= i < members.len() && (#[trigger] members[i]).state.severity() == Level::Error;
            if i < front.len() {
                assert(front[i].state.severity() == Level::Error);
            }
        }
        if forall|i: int|
            0 <= i < front.len() ==> (#[trigger] front[i]).state.severity() == Level::Fine {
            assert forall|i: int| 0 <= i < members.len() - 1 implies (
            #[trigger] members[i]).state.severity() == Level::Fine by {
                assert(front[i] == members[i]);
            }
        }
    }
}

// Members.

/// Whether a finding is about the member: of a collision, those that did not
/// keep the target.
pub open spec fn speaks_of(f: FindingView, key: KeyView) -> bool {
    match f {
        FindingView::Conflict { key: k, .. } => k == key,
        FindingView::SourceUnavailable { key: k, .. } => k == key,
        FindingView::TargetUnavailable { key: k, .. } => k == key,
        FindingView::TargetCollision { members, kept, .. } => members.contains(key) && kept != Some(
            key,
        ),
        FindingView::RelocationBlocked { key: k, .. } => k == key,
    }
}

/// Whether a status shows what a finding says of the member.
pub open spec fn shows_finding(
    s: MemberStatusView,
    f: FindingView,
    key: KeyView,
    ownership_known: bool,
) -> bool {
    &&& s.group == key.group.text()
    &&& s.name == key.name
    &&& match f {
        FindingView::Conflict { target, kind, .. } => s.target == Some(target.text()) && s.state
            == (if kind == ConflictKind::ForeignMount && !ownership_known {
            MemberState::MountedOwnershipUnknown
        } else {
            MemberState::Conflict
        }),
        FindingView::SourceUnavailable { reason, .. } => s.state == MemberState::SourceUnavailable
            && s.detail == Some(reason),
        FindingView::TargetUnavailable { target, reason, .. } => s.target == Some(target.text())
            && s.state == MemberState::TargetUnavailable && s.detail == Some(reason),
        FindingView::TargetCollision { target, kept, .. } => s.target == Some(target.text())
            && s.state == MemberState::Collision && (s.detail is Some <==> kept is Some),
        FindingView::RelocationBlocked { old_target, .. } => s.target == Some(old_target.text())
            && s.state == MemberState::RelocationBlocked,
    }
}

proof fn lemma_collided(
    m: Map<KeyView, MemberStatusView>,
    target: Seq<char>,
    members: Seq<KeyView>,
    kept: Option<KeyView>,
    key: KeyView,
)
    ensures
        ({
            let after = collided(m, target, members, kept);
            &&& members.contains(key) && kept != Some(key) ==> after.contains_key(key)
                && after[key].group == key.group.text() && after[key].name == key.name
                && after[key].target == Some(target) && after[key].state == MemberState::Collision
                && (after[key].detail is Some <==> kept is Some)
            &&& !(members.contains(key) && kept != Some(key)) ==> (after.contains_key(key)
                <==> m.contains_key(key)) && (m.contains_key(key) ==> after[key] == m[key])
        }),
    decreases members.len(),
{
    if members.len() > 0 {
        let front = members.drop_last();
        lemma_collided(m, target, front, kept, key);
        assert(members[members.len() - 1] == members.last());
        if front.contains(key) {
            let i = choose|i: int| 0 <= i < front.len() && front[i] == key;
            assert(members[i] == key);
        }
        if members.contains(key) && key != members.last() {
            let i = choose|i: int| 0 <= i < members.len() && members[i] == key;
            assert(front[i] == key);
        }
    }
}

proof fn lemma_found(
    m: Map<KeyView, MemberStatusView>,
    f: FindingView,
    ownership_known: bool,
    key: KeyView,
)
    ensures
        speaks_of(f, key) ==> found(m, f, ownership_known).contains_key(key) && shows_finding(
            found(m, f, ownership_known)[key],
            f,
            key,
            ownership_known,
        ),
        !speaks_of(f, key) ==> (found(m, f, ownership_known).contains_key(key)
            <==> m.contains_key(key)) && (m.contains_key(key) ==> found(m, f, ownership_known)[key]
            == m[key]),
{
    if let FindingView::TargetCollision { target, members, kept } = f {
        lemma_collided(m, target.text(), members, kept, key);
    }
}

proof fn lemma_not_found(
    m: Map<KeyView, MemberStatusView>,
    findings: Seq<FindingView>,
    ownership_known: bool,
    key: KeyView,
)
    requires
        forall|i: int| 0 <= i < findings.len() ==> !speaks_of(#[trigger] findings[i], key),
    ensures
        statuses_found(m, findings, ownership_known).contains_key(key) <==> m.contains_key(key),
        m.contains_key(key) ==> statuses_found(m, findings, ownership_known)[key] == m[key],
    decreases findings.len(),
{
    if findings.len() > 0 {
        let front = findings.drop_last();
        assert forall|i: int| 0 <= i < front.len() implies !speaks_of(#[trigger] front[i], key) by {
            assert(front[i] == findings[i]);
        }
        lemma_not_found(m, front, ownership_known, key);
        assert(findings[findings.len() - 1] == findings.last());
        lemma_found(statuses_found(m, front, ownership_known), findings.last(), ownership_known, key);
    }
}

proof fn lemma_last_finding(
    m: Map<KeyView, MemberStatusView>,
    findings: Seq<FindingView>,
    ownership_known: bool,
    key: KeyView,
    i: int,
)
    requires
        0 <= i < findings.len(),
        speaks_of(findings[i], key),
        forall|j: int| i < j < findings.len() ==> !speaks_of(#[trigger] findings[j], key),
    ensures
        statuses_found(m, findings, ownership_known).contains_key(key),
        shows_finding(
            statuses_found(m, findings, ownership_known)[key],
            findings[i],
            key,
            ownership_known,
        ),
    decreases findings.len(),
{
    let front = findings.drop_last();
    lemma_found(statuses_found(m, front, ownership_known), findings.last(), ownership_known, key);
    if i < front.len() {
        assert(front[i] == findings[i]);
        assert forall|j: int| i < j < front.len() implies !speaks_of(#[trigger] front[j], key) by {
            assert(front[j] == findings[j]);
        }
        assert(!speaks_of(findings[findings.len() - 1], key));
        lemma_last_finding(m, front, ownership_known, key, i);
    }
}

/// A member that a finding is about is shown with what the last such finding
/// says: a conflict, a missing source, a target that cannot be inspected, a
/// collision, or a move that is blocked. Where ownership is unknown, a foreign
/// mount is not called a conflict.
pub proof fn law_findings_are_shown(
    o: ObservedView,
    plan: PlanView,
    state: Map<KeyView, RecordView>,
    ownership_known: bool,
    key: KeyView,
    i: int,
)
    requires
        0 <= i < plan.findings.len(),
        speaks_of(plan.findings[i], key),
        forall|j: int| i < j < plan.findings.len() ==> !speaks_of(#[trigger] plan.findings[j], key),
    ensures
        statuses_by_key(o, plan, state, ownership_known).contains_key(key),
        shows_finding(
            statuses_by_key(o, plan, state, ownership_known)[key],
            plan.findings[i],
            key,
            ownership_known,
        ),
{
    let desired = statuses_desired(o.desired);
    let frozen = statuses_frozen(desired, state, o.frozen, in_order::<RecordKey>(state.dom()));
    let planned = statuses_steps(frozen, plan.steps, plan.steps.len() as int);
    lemma_last_finding(planned, plan.findings, ownership_known, key, i);
}

/// Whether a step of a plan changes whether the member is mounted or recorded.
pub open spec fn moves(step: StepView, key: KeyView) -> bool {
    !(step.action is Reattr) && is_about(step.action, key)
}

/// Whether a status shows what a step will do to the member.
pub open spec fn shows_step(s: MemberStatusView, steps: Seq<StepView>, i: int, key: KeyView) -> bool {
    &&& s.group == key.group.text()
    &&& s.name == key.name
    &&& match steps[i].action {
        ActionView::Unmount { record, .. } => s.state == MemberState::WouldUnmount && s.target
            == Some(record.target_location().text()),
        ActionView::DropRecord { record, .. } => s.state == MemberState::StaleRecord && s.target
            == Some(record.target_location().text()),
        ActionView::Mount { desired } => s.target == Some(desired.target.text()) && s.state == (if (
        exists|k: int|
            0 <= k < i && (#[trigger] steps[k]).action is Unmount && is_about(
                steps[k].action,
                key,
            )) {
            MemberState::WouldRemount
        } else {
            MemberState::WouldMount
        }),
        ActionView::Reattr { .. } => true,
    }
}

proof fn lemma_step(steps: Seq<StepView>, i: int, key: KeyView)
    requires
        0 <= i < steps.len(),
    ensures
        moves(steps[i], key) ==> (step_status(steps, i) matches Some((k, s)) && k == key
            && shows_step(s, steps, i, key)),
        !moves(steps[i], key) ==> (step_status(steps, i) matches Some((k, s)) ==> k != key),
{
    if steps[i].action is Mount && moves(steps[i], key) {
        if unmounts(steps, i, key) {
            let k = choose|k: int|
                0 <= k < i && (#[trigger] steps[k]).action is Unmount && steps[k].action.key()
                    == key;
            assert(is_about(steps[k].action, key));
        }
        if exists|k: int|
            0 <= k < i && (#[trigger] steps[k]).action is Unmount && is_about(
                steps[k].action,
                key,
            ) {
            let k = choose|k: int|
                0 <= k < i && (#[trigger] steps[k]).action is Unmount && is_about(
                    steps[k].action,
                    key,
                );
            assert(steps[k].action.key() == key);
        }
    }
}

proof fn lemma_steps(
    m: Map<KeyView, MemberStatusView>,
    steps: Seq<StepView>,
    n: int,
    key: KeyView,
    i: int,
)
    requires
        0 <= n <= steps.len(),
        i < n,
        i >= 0 ==> moves(steps[i], key),
        forall|j: int| i < j < n && 0 <= j ==> !moves(#[trigger] steps[j], key),
    ensures
        i >= 0 ==> statuses_steps(m, steps, n).contains_key(key) && shows_step(
            statuses_steps(m, steps, n)[key],
            steps,
            i,
            key,
        ),
        i < 0 ==> (statuses_steps(m, steps, n).contains_key(key) <==> m.contains_key(key)) && (
        m.contains_key(key) ==> statuses_steps(m, steps, n)[key] == m[key]),
    decreases n,
{
    if n > 0 {
        lemma_step(steps, n - 1, key);
        if i < n - 1 {
            assert(!moves(steps[n - 1], key));
            lemma_steps(m, steps, n - 1, key, i);
        }
    }
}

/// A member that no finding is about is shown with what the last step about it
/// will do: unmount it, drop its record, mount it, or mount it anew.
pub proof fn law_steps_are_shown(
    o: ObservedView,
    plan: PlanView,
    state: Map<KeyView, RecordView>,
    ownership_known: bool,
    key: KeyView,
    i: int,
)
    requires
        forall|j: int| 0 <= j < plan.findings.len() ==> !speaks_of(#[trigger] plan.findings[j], key),
        0 <= i < plan.steps.len(),
        moves(plan.steps[i], key),
        forall|j: int| i < j < plan.steps.len() ==> !moves(#[trigger] plan.steps[j], key),
    ensures
        statuses_by_key(o, plan, state, ownership_known).contains_key(key),
        shows_step(
            statuses_by_key(o, plan, state, ownership_known)[key],
            plan.steps,
            i,
            key,
        ),
{
    let desired = statuses_desired(o.desired);
    let frozen = statuses_frozen(desired, state, o.frozen, in_order::<RecordKey>(state.dom()));
    let planned = statuses_steps(frozen, plan.steps, plan.steps.len() as int);
    lemma_steps(frozen, plan.steps, plan.steps.len() as int, key, i);
    lemma_not_found(planned, plan.findings, ownership_known, key);
}

proof fn lemma_desired(desired: Seq<DesiredView>, key: KeyView)
    ensures
        statuses_desired(desired).contains_key(key) <==> exists|i: int|
            0 <= i < desired.len() && (#[trigger] desired[i]).key == key,
        statuses_desired(desired).contains_key(key) ==> {
            let s = statuses_desired(desired)[key];
            &&& s.group == key.group.text()
            &&& s.name == key.name
            &&& s.state == MemberState::Mounted
            &&& s.detail is None
            &&& exists|i: int|
                0 <= i < desired.len() && (#[trigger] desired[i]).key == key && s.target == Some(
                    desired[i].target.text(),
                )
        },
    decreases desired.len(),
{
    if desired.len() > 0 {
        let front = desired.drop_last();
        lemma_desired(front, key);
        assert(desired[desired.len() - 1] == desired.last());
        if statuses_desired(front).contains_key(key) {
            let s = statuses_desired(front)[key];
            let i = choose|i: int|
                0 <= i < front.len() && (#[trigger] front[i]).key == key && s.target == Some(
                    front[i].target.text(),
                );
            assert(desired[i] == front[i]);
        }
        if exists|i: int| 0 <= i < desired.len() && (#[trigger] desired[i]).key == key {
            let i = choose|i: int| 0 <= i < desired.len() && (#[trigger] desired[i]).key == key;
            if i < front.len() {
                assert(front[i].key == key);
            }
        }
    }
}

proof fn lemma_frozen(
    m: Map<KeyView, MemberStatusView>,
    state: Map<KeyView, RecordView>,
    frozen: Set<GroupIdView>,
    keys: Seq<KeyView>,
    key: KeyView,
)
    requires
        keyed(state),
        forall|i: int| 0 <= i < keys.len() ==> state.contains_key(#[trigger] keys[i]),
    ensures
        ({
            let after = statuses_frozen(m, state, frozen, keys);
            &&& keys.contains(key) && frozen.contains(key.group) ==> after.contains_key(key)
                && after[key].state == MemberState::GroupUnavailable && after[key].group
                == key.group.text() && after[key].name == key.name && after[key].target == Some(
                state[key].target_location().text(),
            )
            &&& !(keys.contains(key) && frozen.contains(key.group)) ==> (after.contains_key(key)
                <==> m.contains_key(key)) && (m.contains_key(key) ==> after[key] == m[key])
        }),
    decreases keys.len(),
{
    if keys.len() > 0 {
        let front = keys.drop_last();
        assert forall|i: int| 0 <= i < front.len() implies state.contains_key(
            #[trigger] front[i],
        ) by {
            assert(front[i] == keys[i]);
        }
        lemma_frozen(m, state, frozen, front, key);
        assert(keys[keys.len() - 1] == keys.last());
        assert(state.contains_key(keys[keys.len() - 1]));
        assert(state[keys.last()].key() == keys.last());
        if front.contains(key) {
            let i = choose|i: int| 0 <= i < front.len() && front[i] == key;
            assert(keys[i] == key);
        }
        if keys.contains(key) && key != keys.last() {
            let i = choose|i: int| 0 <= i < keys.len() && keys[i] == key;
            assert(front[i] == key);
        }
    }
}

/// A member that no finding and no step is about is shown as it is: mounted if
/// it is desired, unavailable if it is recorded in a frozen group, and not at
/// all if it is neither.
pub proof fn law_settled_members_are_shown(
    o: ObservedView,
    plan: PlanView,
    state: Map<KeyView, RecordView>,
    ownership_known: bool,
    key: KeyView,
)
    requires
        keyed(state),
        state.dom().finite(),
        forall|j: int| 0 <= j < plan.findings.len() ==> !speaks_of(#[trigger] plan.findings[j], key),
        forall|j: int| 0 <= j < plan.steps.len() ==> !moves(#[trigger] plan.steps[j], key),
    ensures
        ({
            let m = statuses_by_key(o, plan, state, ownership_known);
            let is_desired = exists|i: int|
                0 <= i < o.desired.len() && (#[trigger] o.desired[i]).key == key;
            let is_frozen = state.contains_key(key) && o.frozen.contains(key.group);
            &&& m.contains_key(key) <==> is_desired || is_frozen
            &&& m.contains_key(key) ==> m[key].group == key.group.text() && m[key].name == key.name
            &&& is_frozen ==> m[key].state == MemberState::GroupUnavailable && m[key].target
                == Some(state[key].target_location().text())
            &&& is_desired && !is_frozen ==> m[key].state == MemberState::Mounted && exists|i: int|
                0 <= i < o.desired.len() && (#[trigger] o.desired[i]).key == key && m[key].target
                    == Some(o.desired[i].target.text())
        }),
{
    let desired = statuses_desired(o.desired);
    let keys = in_order::<RecordKey>(state.dom());
    let frozen = statuses_frozen(desired, state, o.frozen, keys);
    let planned = statuses_steps(frozen, plan.steps, plan.steps.len() as int);
    crate::order::lemma_in_order_finite::<RecordKey>(state.dom());
    assert forall|i: int| 0 <= i < keys.len() implies state.contains_key(#[trigger] keys[i]) by {
        assert(keys.to_set().contains(keys[i]));
    }
    assert(keys.contains(key) <==> state.contains_key(key)) by {
        assert(keys.to_set().contains(key) <==> keys.contains(key));
    }
    lemma_desired(o.desired, key);
    lemma_frozen(desired, state, o.frozen, keys, key);
    lemma_steps(frozen, plan.steps, plan.steps.len() as int, key, -1);
    lemma_not_found(planned, plan.findings, ownership_known, key);
}

/// Every rejected entry is shown as rejected with its reason, and nothing else
/// is.
pub proof fn law_rejections_are_shown(notes: Seq<NoteView>, note: NoteView)
    ensures
        statuses_noted(notes.push(note)) == (if note is Rejected || note is InterpolationFailed
            || note is SetEntryRejected {
            statuses_noted(notes).push(
                MemberStatusView {
                    group: note.key().group,
                    name: note.key().subject,
                    target: None,
                    state: MemberState::Rejected,
                    detail: Some(note.detail()),
                },
            )
        } else {
            statuses_noted(notes)
        }),
        statuses_noted(Seq::empty()).len() == 0,
{
    assert(notes.push(note).drop_last() =~= notes);
}

// Group summaries.

/// How many of the numbers of a group summary go up by one with one more step,
/// member status, desired mount or note: a mount of the group counts as one to
/// create, an unmount as one to remove; a mounted or remounted member as an
/// existing mount, a conflict or collision as a conflict; a source as valid or
/// missing; and a rejected entry as rejected. Everything of other groups counts
/// for nothing.
pub proof fn law_group_numbers_count_their_group(
    group: GroupIdView,
    membership: Seq<char>,
    o: ObservedView,
    plan: PlanView,
    statuses: Seq<MemberStatusView>,
    extra: Map<GroupIdView, GroupExtraView>,
    step: StepView,
    status: MemberStatusView,
    d: DesiredView,
    note: NoteView,
)
    ensures
        ({
            let before = group_report(group, membership, o, plan, statuses, extra);
            let more_steps = group_report(
                group,
                membership,
                o,
                PlanView { steps: plan.steps.push(step), ..plan },
                statuses,
                extra,
            );
            let more_statuses = group_report(
                group,
                membership,
                o,
                plan,
                statuses.push(status),
                extra,
            );
            let more_desired = group_report(
                group,
                membership,
                ObservedView { desired: o.desired.push(d), ..o },
                plan,
                statuses,
                extra,
            );
            let more_notes = group_report(
                group,
                membership,
                ObservedView { notes: o.notes.push(note), ..o },
                plan,
                statuses,
                extra,
            );
            let resolved = o.sources.contains_key(d.key) && o.sources[d.key] is Resolved;
            &&& more_steps.would_create == before.would_create + (if step.action matches ActionView::Mount {
                desired,
            } && desired.key.group == group {
                1nat
            } else {
                0
            })
            &&& more_steps.would_remove == before.would_remove + (if step.action matches ActionView::Unmount {
                record,
                ..
            } && record.group == group {
                1nat
            } else {
                0
            })
            &&& more_statuses.existing_mounts == before.existing_mounts + (if status.group
                == group.text() && (status.state == MemberState::Mounted || status.state
                == MemberState::WouldRemount) {
                1nat
            } else {
                0
            })
            &&& more_statuses.conflicts == before.conflicts + (if status.group == group.text() && (
            status.state == MemberState::Conflict || status.state == MemberState::Collision) {
                1nat
            } else {
                0
            })
            &&& more_desired.sources_valid == before.sources_valid + (if d.key.group == group
                && resolved {
                1nat
            } else {
                0
            })
            &&& more_desired.sources_missing == before.sources_missing + (if d.key.group == group
                && !resolved {
                1nat
            } else {
                0
            })
            &&& more_notes.rejected == before.rejected + (if (note matches NoteView::Rejected {
                group: g,
                ..
            } && g == group) || (note matches NoteView::InterpolationFailed { group: g, .. } && g
                == group) {
                1nat
            } else {
                0
            })
        }),
{
    assert(plan.steps.push(step).drop_last() =~= plan.steps);
    assert(statuses.push(status).drop_last() =~= statuses);
    assert(o.desired.push(d).drop_last() =~= o.desired);
    assert(o.notes.push(note).drop_last() =~= o.notes);
}

/// Where nothing is planned, desired, noted or known, every number is zero; the
/// members are those that were scanned, and the ignored entries those that were
/// found hidden.
pub proof fn law_group_numbers_start_at_zero(
    group: GroupIdView,
    membership: Seq<char>,
    o: ObservedView,
    plan: PlanView,
    statuses: Seq<MemberStatusView>,
    extra: Map<GroupIdView, GroupExtraView>,
)
    ensures
        ({
            let r = group_report(group, membership, o, plan, statuses, extra);
            &&& r.name == group.text()
            &&& plan.steps.len() == 0 ==> r.would_create == 0 && r.would_remove == 0
            &&& statuses.len() == 0 ==> r.existing_mounts == 0 && r.conflicts == 0
            &&& o.desired.len() == 0 ==> r.sources_valid == 0 && r.sources_missing == 0
            &&& o.notes.len() == 0 ==> r.rejected == 0
            &&& o.members.contains_key(group) ==> o.members[group].finite() ==> r.members
                == o.members[group].len()
            &&& !o.members.contains_key(group) ==> r.members == 0
            &&& o.ignored.contains_key(group) ==> r.ignored == o.ignored[group].len()
            &&& !o.ignored.contains_key(group) ==> r.ignored == 0
            &&& extra.contains_key(group) ==> r.propagation == extra[group].propagation
        }),
{
    if o.members.contains_key(group) && o.members[group].finite() {
        let names = in_order::<Name>(o.members[group]);
        crate::order::lemma_in_order_finite::<Name>(o.members[group]);
        crate::order::lemma_ascending_distinct::<Name>(names);
        names.unique_seq_to_set();
    }
}

/// A group that was not scanned, or whose directory could not be read or is
/// gone, is an error; so is one with a member that is. A group is fine only if
/// it was scanned, nothing in it was rejected, no member has a problem and
/// nothing else is wrong with it.
pub proof fn law_group_levels_tell_the_worst(
    group: GroupIdView,
    membership: Seq<char>,
    o: ObservedView,
    plan: PlanView,
    statuses: Seq<MemberStatusView>,
    extra: Map<GroupIdView, GroupExtraView>,
    i: int,
)
    ensures
        ({
            let r = group_report(group, membership, o, plan, statuses, extra);
            &&& !o.members.contains_key(group) ==> r.status == Level::Error
            &&& 0 <= i < o.notes.len() && ((o.notes[i] matches NoteView::MembershipUnreadable {
                group: g,
                ..
            } && g == group) || (o.notes[i] matches NoteView::MembershipDeleted { group: g } && g
                == group)) ==> r.status == Level::Error
            &&& 0 <= i < statuses.len() && statuses[i].group == group.text()
                && statuses[i].state.severity() == Level::Error ==> r.status == Level::Error
            &&& 0 <= i < statuses.len() && statuses[i].group == group.text()
                && statuses[i].state.severity() != Level::Fine ==> r.status != Level::Fine
            &&& r.rejected > 0 ==> r.status != Level::Fine
            &&& extra.contains_key(group) && extra[group].level == Level::Error ==> r.status
                == Level::Error
            &&& extra.contains_key(group) && extra[group].level != Level::Fine ==> r.status
                != Level::Fine
        }),
{
    if 0 <= i < o.notes.len() {
        lemma_unreadable(group, o.notes, i);
    }
    if 0 <= i < statuses.len() && statuses[i].group == group.text() {
        lemma_worst_member(group.text(), statuses, i);
    }
}

proof fn lemma_unreadable(group: GroupIdView, notes: Seq<NoteView>, i: int)
    requires
        0 <= i < notes.len(),
    ensures
        (notes[i] matches NoteView::MembershipUnreadable { group: g, .. } && g == group) || (
        notes[i] matches NoteView::MembershipDeleted { group: g } && g == group) ==> unreadable(
            group,
            notes,
        ) is Some,
    decreases notes.len(),
{
    if i < notes.len() - 1 {
        assert(notes.drop_last()[i] == notes[i]);
        lemma_unreadable(group, notes.drop_last(), i);
    }
}

proof fn lemma_worst_member(group: Seq<char>, statuses: Seq<MemberStatusView>, i: int)
    requires
        0 <= i < statuses.len(),
        statuses[i].group == group,
    ensures
        statuses[i].state.severity() == Level::Error ==> worst_member(group, statuses)
            == Level::Error,
        statuses[i].state.severity() != Level::Fine ==> worst_member(group, statuses)
            != Level::Fine,
    decreases statuses.len(),
{
    if i < statuses.len() - 1 {
        assert(statuses.drop_last()[i] == statuses[i]);
        lemma_worst_member(group, statuses.drop_last(), i);
    }
}

} // verus!
