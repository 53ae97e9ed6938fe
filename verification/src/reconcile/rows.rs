//! The rows of the decision table as laws of the plan: what each situation of
//! a member leads to, stated over what was configured, recorded and observed.
use vstd::prelude::*;

use crate::identity::{is_recorded_mount, DevIno, MountIdentity};
use crate::order::{in_order, Key};
use crate::reconcile::decision::{accepted, admitted, by_key, collisions_over, contenders, decide_member, decide_over, decided, depart_one, depart_over, departed, departs, execution_order, first_holder, holds_target, insert_by_key, is_recorded_at, planned, positions, targets_in_order, wanted_at, wanted_targets, Departed, Draft, DraftStep, InputView};
use crate::reconcile::laws::{lemma_accepted, lemma_accepted_keys, lemma_execution_order, lemma_positions, plannable};
use crate::reconcile::plan::{ActionView, ConflictKind, DesiredView, DropReasonView, FindingView, Location, LocationView, ObservedAttrs, PlanView, SourceView, TargetView, UnmountReasonView};
use crate::reconcile::table::{is_alone, is_recorded, law_plan_reports_what_is_due, law_plan_takes_what_is_due, law_recorded_members_follow_their_source, law_uncontended_members_are_accepted, leaves, departure_action, member_actions, member_finding, recorded_actions, takes, vacates, is_vacated};
use crate::state::{keyed, KeyView, RecordKey};

verus! {

/// Whether an action is about the member.
pub open spec fn is_about(action: ActionView, key: KeyView) -> bool {
    match action {
        ActionView::Unmount { record, reason } => record.group == key.group && record.name
            == key.name,
        ActionView::DropRecord { record, reason } => record.group == key.group && record.name
            == key.name,
        ActionView::Reattr { record, attrs } => record.group == key.group && record.name
            == key.name,
        ActionView::Mount { desired } => desired.key == key,
    }
}

/// Whether a plan does something about the member.
pub open spec fn acts_on(plan: PlanView, key: KeyView) -> bool {
    exists|i: int| 0 <= i < plan.steps.len() && is_about((#[trigger] plan.steps[i]).action, key)
}

/// Whether a desired mount contends with no other, and is recorded where it is
/// wanted.
pub open spec fn stands(input: InputView, i: int) -> bool {
    let d = input.desired[i];
    let record = input.state[d.key];
    &&& plannable(input)
    &&& is_alone(input, i)
    &&& input.state.contains_key(d.key)
    &&& record.source_root == d.source.root
    &&& record.source == d.source.path
    &&& record.target_root == d.target.root
    &&& record.target == d.target.path
}

/// Whether the recorded mount is seen at the target of the desired mount.
pub open spec fn is_seen(
    input: InputView,
    i: int,
    identity: MountIdentity,
    attrs: Option<ObservedAttrs>,
) -> bool {
    let d = input.desired[i];
    &&& input.targets.contains_key(d.target)
    &&& input.targets[d.target] == TargetView::Mounted { identity, attrs }
    &&& is_recorded_mount(identity, input.state[d.key].identity)
}

/// Whether the source of the desired mount is seen to be the directory.
pub open spec fn is_found(input: InputView, i: int, root: DevIno) -> bool {
    input.sources.contains_key(input.desired[i].key) && input.sources[input.desired[i].key]
        == SourceView::Resolved(root)
}

/// Whether the source of the desired mount cannot be had.
pub open spec fn is_missing(input: InputView, i: int, reason: Seq<char>) -> bool {
    input.sources.contains_key(input.desired[i].key) && input.sources[input.desired[i].key]
        == SourceView::Unavailable(reason)
}

proof fn lemma_stands(input: InputView, i: int)
    requires
        stands(input, i),
    ensures
        is_recorded(input, input.desired[i]),
        forall|a: ActionView|
            is_about(a, input.desired[i].key) ==> (#[trigger] takes(planned(input), a)
                <==> recorded_actions(
                input,
                input.desired[i],
                input.state[input.desired[i].key],
            ).contains(a)),
{
    let d = input.desired[i];
    let record = input.state[d.key];
    assert(record.source_location() == d.source);
    assert(record.target_location() == d.target);
    law_recorded_members_follow_their_source(input, i);
    assert(forall|a: ActionView| is_about(a, d.key) ==> a.key() == d.key);
}

/// The only actions about a member that stands are those of its row.
proof fn lemma_acts(input: InputView, i: int)
    requires
        stands(input, i),
    ensures
        acts_on(planned(input), input.desired[i].key) <==> recorded_actions(
            input,
            input.desired[i],
            input.state[input.desired[i].key],
        ).len() > 0,
{
    let d = input.desired[i];
    let record = input.state[d.key];
    let plan = planned(input);
    let actions = recorded_actions(input, d, record);
    lemma_stands(input, i);
    assert(record.key() == d.key);
    if actions.len() > 0 {
        let a = actions[0];
        assert(is_about(a, d.key));
        assert(actions.contains(a));
        assert(takes(plan, a));
        let k = choose|k: int| 0 <= k < plan.steps.len() && (#[trigger] plan.steps[k]).action == a;
        assert(is_about(plan.steps[k].action, d.key));
    }
    if acts_on(plan, d.key) {
        let k = choose|k: int|
            0 <= k < plan.steps.len() && is_about((#[trigger] plan.steps[k]).action, d.key);
        assert(takes(plan, plan.steps[k].action));
        assert(actions.contains(plan.steps[k].action));
    }
}

proof fn lemma_due(input: InputView, i: int, n: int)
    requires
        stands(input, i),
        0 <= n < recorded_actions(
            input,
            input.desired[i],
            input.state[input.desired[i].key],
        ).len(),
    ensures
        takes(
            planned(input),
            recorded_actions(input, input.desired[i], input.state[input.desired[i].key])[n],
        ),
{
    let d = input.desired[i];
    let actions = recorded_actions(input, d, input.state[d.key]);
    lemma_stands(input, i);
    assert(input.state[d.key].key() == d.key);
    assert(is_about(actions[n], d.key));
    assert(actions.contains(actions[n]));
}

/// A member that is mounted from its unchanged source is left alone only if
/// each attribute that its record tells is the configured one, and the mount
/// is not seen to lack one. Taken flag by flag, any difference means a step
/// for the member.
pub proof fn law_changed_attributes_are_acted_on(
    input: InputView,
    i: int,
    identity: MountIdentity,
    attrs: Option<ObservedAttrs>,
)
    requires
        stands(input, i),
        is_seen(input, i, identity, attrs),
        is_found(input, i, input.state[input.desired[i].key].identity.root),
    ensures
        ({
            let d = input.desired[i];
            let record = input.state[d.key];
            let acted = acts_on(planned(input), d.key);
            &&& record.read_only == Some(!d.attrs.read_only) ==> acted
            &&& record.noexec == Some(!d.attrs.noexec) ==> acted
            &&& record.nosymfollow == Some(!d.attrs.nosymfollow) ==> acted
            &&& attrs matches Some(seen) ==> !seen.nosuid || !seen.nodev || (d.attrs.read_only
                && !seen.read_only) || (d.attrs.noexec && !seen.noexec) || (d.attrs.nosymfollow
                && !seen.nosymfollow) ==> acted
        }),
{
    lemma_acts(input, i);
}

/// A member whose record tells the configured attributes, flag by flag, and
/// whose mount is not seen to lack one, is left alone.
pub proof fn law_unchanged_members_are_left_alone(
    input: InputView,
    i: int,
    identity: MountIdentity,
    attrs: Option<ObservedAttrs>,
)
    requires
        stands(input, i),
        is_seen(input, i, identity, attrs),
        is_found(input, i, input.state[input.desired[i].key].identity.root),
        ({
            let d = input.desired[i];
            let record = input.state[d.key];
            &&& record.read_only is None || record.read_only == Some(d.attrs.read_only)
            &&& record.noexec is None || record.noexec == Some(d.attrs.noexec)
            &&& record.nosymfollow is None || record.nosymfollow == Some(d.attrs.nosymfollow)
            &&& attrs matches Some(seen) ==> seen.nosuid && seen.nodev && (d.attrs.read_only
                ==> seen.read_only) && (d.attrs.noexec ==> seen.noexec) && (d.attrs.nosymfollow
                ==> seen.nosymfollow)
        }),
    ensures
        !acts_on(planned(input), input.desired[i].key),
{
    lemma_acts(input, i);
}

/// A restriction that was recorded and is no longer configured cannot be
/// lifted in place: the member is unmounted and mounted anew.
pub proof fn law_relaxed_members_are_mounted_anew(
    input: InputView,
    i: int,
    identity: MountIdentity,
    attrs: Option<ObservedAttrs>,
)
    requires
        stands(input, i),
        is_seen(input, i, identity, attrs),
        is_found(input, i, input.state[input.desired[i].key].identity.root),
        ({
            let d = input.desired[i];
            let record = input.state[d.key];
            ||| record.read_only == Some(true) && !d.attrs.read_only
            ||| record.noexec == Some(true) && !d.attrs.noexec
            ||| record.nosymfollow == Some(true) && !d.attrs.nosymfollow
        }),
    ensures
        ({
            let d = input.desired[i];
            let plan = planned(input);
            &&& takes(
                plan,
                ActionView::Unmount {
                    record: input.state[d.key],
                    reason: UnmountReasonView::AttributesRelaxed,
                },
            )
            &&& takes(plan, ActionView::Mount { desired: d })
        }),
{
    lemma_due(input, i, 0);
    lemma_due(input, i, 1);
}

/// A mount that is seen to lack a configured restriction, and was not made
/// with one that is no longer configured, gets the configured attributes in
/// place.
pub proof fn law_lacking_members_are_mended(
    input: InputView,
    i: int,
    identity: MountIdentity,
    seen: ObservedAttrs,
)
    requires
        stands(input, i),
        is_seen(input, i, identity, Some(seen)),
        is_found(input, i, input.state[input.desired[i].key].identity.root),
        ({
            let d = input.desired[i];
            let record = input.state[d.key];
            &&& record.read_only == Some(true) ==> d.attrs.read_only
            &&& record.noexec == Some(true) ==> d.attrs.noexec
            &&& record.nosymfollow == Some(true) ==> d.attrs.nosymfollow
            &&& !seen.nosuid || !seen.nodev || (d.attrs.read_only && !seen.read_only) || (
            d.attrs.noexec && !seen.noexec) || (d.attrs.nosymfollow && !seen.nosymfollow)
        }),
    ensures
        takes(
            planned(input),
            ActionView::Reattr {
                record: input.state[input.desired[i].key],
                attrs: input.desired[i].attrs,
            },
        ),
        !takes(planned(input), ActionView::Mount { desired: input.desired[i] }),
{
    let d = input.desired[i];
    lemma_stands(input, i);
    lemma_due(input, i, 0);
    assert(recorded_actions(input, d, input.state[d.key]).len() == 1);
}

/// A member whose source is another directory than the mounted one is
/// unmounted and mounted anew; one whose source is gone is unmounted and not
/// mounted.
pub proof fn law_changed_sources_are_followed(
    input: InputView,
    i: int,
    identity: MountIdentity,
    attrs: Option<ObservedAttrs>,
    root: DevIno,
    reason: Seq<char>,
)
    requires
        stands(input, i),
        is_seen(input, i, identity, attrs),
    ensures
        ({
            let d = input.desired[i];
            let record = input.state[d.key];
            let plan = planned(input);
            &&& is_found(input, i, root) && root != record.identity.root ==> takes(
                plan,
                ActionView::Unmount { record, reason: UnmountReasonView::SourceChanged },
            ) && takes(plan, ActionView::Mount { desired: d })
            &&& is_missing(input, i, reason) ==> takes(
                plan,
                ActionView::Unmount { record, reason: UnmountReasonView::SourceGone(reason) },
            ) && !takes(plan, ActionView::Mount { desired: d })
        }),
{
    let d = input.desired[i];
    let record = input.state[d.key];
    let actions = recorded_actions(input, d, record);
    lemma_stands(input, i);
    if is_found(input, i, root) && root != record.identity.root {
        assert(actions.len() == 2);
        lemma_due(input, i, 0);
        lemma_due(input, i, 1);
    }
    if is_missing(input, i, reason) {
        assert(actions.len() == 1);
        lemma_due(input, i, 0);
    }
}

/// A mount of somebody else in place of the recorded one is a conflict: it is
/// reported, nothing is done, and so the record is kept.
pub proof fn law_replaced_mounts_are_reported(
    input: InputView,
    i: int,
    identity: MountIdentity,
    attrs: Option<ObservedAttrs>,
)
    requires
        stands(input, i),
        input.targets.contains_key(input.desired[i].target),
        input.targets[input.desired[i].target] == (TargetView::Mounted { identity, attrs }),
        !is_recorded_mount(identity, input.state[input.desired[i].key].identity),
    ensures
        !acts_on(planned(input), input.desired[i].key),
        planned(input).findings.contains(
            FindingView::Conflict {
                key: input.desired[i].key,
                target: input.desired[i].target,
                kind: ConflictKind::TargetReplaced,
            },
        ),
{
    lemma_acts(input, i);
    lemma_stands(input, i);
    lemma_reported(input, i);
}

proof fn lemma_reported(input: InputView, i: int)
    requires
        plannable(input),
        is_alone(input, i),
        member_finding(input, input.desired[i]) is Some,
    ensures
        planned(input).findings.contains(member_finding(input, input.desired[i])->0),
{
    let d = input.desired[i];
    law_uncontended_members_are_accepted(input, i);
    law_plan_reports_what_is_due(input, member_finding(input, d)->0);
    assert(accepted(input).contains_key(d.key));
}

/// A recorded member that is no longer mounted is mounted again if its source
/// resolves; if not, its record is dropped and the source is reported.
pub proof fn law_vanished_mounts_are_restored(
    input: InputView,
    i: int,
    root: DevIno,
    reason: Seq<char>,
)
    requires
        stands(input, i),
        input.targets.contains_key(input.desired[i].target),
        input.targets[input.desired[i].target] is NotMounted,
    ensures
        ({
            let d = input.desired[i];
            let record = input.state[d.key];
            let plan = planned(input);
            &&& is_found(input, i, root) ==> takes(plan, ActionView::Mount { desired: d })
                && !takes(
                plan,
                ActionView::DropRecord { record, reason: DropReasonView::MountGone },
            )
            &&& is_missing(input, i, reason) ==> takes(
                plan,
                ActionView::DropRecord { record, reason: DropReasonView::SourceUnavailable(reason) },
            ) && plan.findings.contains(
                FindingView::SourceUnavailable { key: d.key, source: d.source, reason },
            ) && !takes(plan, ActionView::Mount { desired: d })
        }),
{
    let d = input.desired[i];
    let record = input.state[d.key];
    let actions = recorded_actions(input, d, record);
    lemma_stands(input, i);
    assert(record.key() == d.key);
    if is_found(input, i, root) {
        assert(actions.len() == 1);
        lemma_due(input, i, 0);
    }
    if is_missing(input, i, reason) {
        assert(actions.len() == 1);
        lemma_due(input, i, 0);
        lemma_reported(input, i);
    }
}

/// Where the target of a recorded member could not be inspected, or was not,
/// nothing is done about the member.
pub proof fn law_unseen_targets_are_left_alone(input: InputView, i: int)
    requires
        stands(input, i),
        !input.targets.contains_key(input.desired[i].target)
            || input.targets[input.desired[i].target] is Unavailable,
    ensures
        !acts_on(planned(input), input.desired[i].key),
        input.targets.contains_key(input.desired[i].target) ==> planned(input).findings.contains(
            FindingView::TargetUnavailable {
                key: input.desired[i].key,
                target: input.desired[i].target,
                reason: input.targets[input.desired[i].target]->Unavailable_0,
            },
        ),
{
    lemma_acts(input, i);
    lemma_stands(input, i);
    lemma_reported(input, i);
}

/// A member without a record is mounted if nothing is at its target and its
/// source resolves; a source that cannot be had is reported, and so is a mount
/// at the target that no record names.
pub proof fn law_new_members_go_where_nothing_is(
    input: InputView,
    i: int,
    root: DevIno,
    reason: Seq<char>,
)
    requires
        plannable(input),
        is_alone(input, i),
        !input.state.contains_key(input.desired[i].key),
        input.targets.contains_key(input.desired[i].target),
    ensures
        ({
            let d = input.desired[i];
            let plan = planned(input);
            let seen = input.targets[d.target];
            &&& seen is NotMounted && is_found(input, i, root) ==> takes(
                plan,
                ActionView::Mount { desired: d },
            )
            &&& seen is NotMounted && is_missing(input, i, reason) ==> plan.findings.contains(
                FindingView::SourceUnavailable { key: d.key, source: d.source, reason },
            ) && !acts_on(plan, d.key)
            &&& seen is Mounted && (forall|k: KeyView| #[trigger]
                input.state.contains_key(k) ==> input.state[k].target_root != d.target.root
                    || input.state[k].target != d.target.path) ==> plan.findings.contains(
                FindingView::Conflict {
                    key: d.key,
                    target: d.target,
                    kind: ConflictKind::ForeignMount,
                },
            ) && !acts_on(plan, d.key)
            &&& seen matches TargetView::Unavailable(why) ==> plan.findings.contains(
                FindingView::TargetUnavailable { key: d.key, target: d.target, reason: why },
            ) && !acts_on(plan, d.key)
        }),
{
    let d = input.desired[i];
    let plan = planned(input);
    let seen = input.targets[d.target];
    law_uncontended_members_are_accepted(input, i);
    assert(!is_recorded(input, d));
    if member_finding(input, d) is Some {
        lemma_reported(input, i);
    }
    if seen is NotMounted && is_found(input, i, root) {
        let mount = ActionView::Mount { desired: d };
        assert(member_actions(input, d)[0] == mount);
        law_plan_takes_what_is_due(input, mount);
        assert(accepted(input).contains_key(d.key));
    }
    if seen is Mounted && (forall|k: KeyView| #[trigger]
        input.state.contains_key(k) ==> input.state[k].target_root != d.target.root
            || input.state[k].target != d.target.path) {
        assert(!is_vacated(input, d.target)) by {
            if is_vacated(input, d.target) {
                let k = choose|k: KeyView| #[trigger] vacates(input, k, d.target);
                assert(input.state.contains_key(k));
            }
        }
    }
    if member_actions(input, d).len() == 0 && acts_on(plan, d.key) {
        let n = choose|n: int|
            0 <= n < plan.steps.len() && is_about((#[trigger] plan.steps[n]).action, d.key);
        lemma_steps_have_a_cause(input, plan.steps[n].action, d.key);
    }
}

/// Whatever a plan does about a member is due for its departing record or for
/// the accepted member itself.
proof fn lemma_steps_have_a_cause(input: InputView, action: ActionView, key: KeyView)
    requires
        plannable(input),
        takes(planned(input), action),
        is_about(action, key),
    ensures
        (leaves(input, key) && departure_action(input, input.state[key]) == Some(action)) || (
        accepted(input).contains_key(key) && member_actions(
            input,
            accepted(input)[key],
        ).contains(action)),
{
    law_plan_takes_what_is_due(input, action);
    if exists|k: KeyView| #[trigger]
        leaves(input, k) && departure_action(input, input.state[k]) == Some(action) {
        let k = choose|k: KeyView| #[trigger]
            leaves(input, k) && departure_action(input, input.state[k]) == Some(action);
        assert(input.state.contains_key(k));
        assert(input.state[k].key() == k);
        assert(k == key);
    } else {
        let k = choose|k: KeyView| #[trigger]
            accepted(input).contains_key(k) && member_actions(input, accepted(input)[k]).contains(
                action,
            );
        lemma_accepted(input, k);
        let d = accepted(input)[k];
        let n = choose|n: int|
            0 <= n < member_actions(input, d).len() && member_actions(input, d)[n] == action;
        assert(member_actions(input, d)[n] == action);
        if is_recorded(input, d) {
            assert(input.state[d.key].key() == d.key);
        }
        assert(k == key);
    }
}

/// A member that is recorded elsewhere moves: its mount is taken down where it
/// was, and it is mounted where it is wanted, if nothing else is mounted there.
pub proof fn law_relocated_members_move(
    input: InputView,
    i: int,
    identity: MountIdentity,
    attrs: Option<ObservedAttrs>,
    root: DevIno,
)
    requires
        plannable(input),
        is_alone(input, i),
        input.state.contains_key(input.desired[i].key),
        ({
            let d = input.desired[i];
            let record = input.state[d.key];
            let old = LocationView { root: record.target_root, path: record.target };
            &&& old != d.target || record.source_root != d.source.root || record.source
                != d.source.path
            &&& input.targets.contains_key(old)
            &&& input.targets[old] == TargetView::Mounted { identity, attrs }
            &&& is_recorded_mount(identity, record.identity)
            &&& old == d.target || (input.targets.contains_key(d.target)
                && input.targets[d.target] is NotMounted)
        }),
        is_found(input, i, root),
    ensures
        takes(
            planned(input),
            ActionView::Unmount {
                record: input.state[input.desired[i].key],
                reason: UnmountReasonView::Relocated,
            },
        ),
        takes(planned(input), ActionView::Mount { desired: input.desired[i] }),
{
    let d = input.desired[i];
    let record = input.state[d.key];
    law_uncontended_members_are_accepted(input, i);
    assert(record.key() == d.key);
    assert(!is_recorded_at(record, d)) by {
        if is_recorded_at(record, d) {
            assert(record.target_location() == d.target);
            assert(record.source_location() == d.source);
        }
    }
    assert(record.target_location() == LocationView {
        root: record.target_root,
        path: record.target,
    });
    lemma_accepted(input, d.key);
    assert(!input.frozen.contains(record.group));
    assert(departs(input, record));
    assert(leaves(input, d.key));
    if record.target_location() == d.target {
        assert(vacates(input, d.key, d.target));
        assert(is_vacated(input, d.target));
    }
    let unmount = ActionView::Unmount { record, reason: UnmountReasonView::Relocated };
    assert(departure_action(input, record) == Some(unmount));
    law_plan_takes_what_is_due(input, unmount);
    let mount = ActionView::Mount { desired: d };
    assert(member_actions(input, d)[0] == mount);
    law_plan_takes_what_is_due(input, mount);
    assert(accepted(input).contains_key(d.key));
}

/// Nothing is mounted or mended before everything that is to go has gone, and
/// nothing is mounted before everything that is to be mended was.
pub proof fn law_what_goes_goes_first(input: InputView, i: int, j: int)
    requires
        plannable(input),
        0 <= i < j < planned(input).steps.len(),
    ensures
        ({
            let first = planned(input).steps[i].action;
            let second = planned(input).steps[j].action;
            &&& second is Unmount || second is DropRecord ==> first is Unmount
                || first is DropRecord
            &&& first is Mount ==> second is Mount
        }),
{
    lemma_execution_order(decided(input).steps);
    let order = execution_order(decided(input).steps);
    assert(order[i] < decided(input).steps.len() && order[j] < decided(input).steps.len());
}

// Dependencies.

/// Whether every mount of a draft needs each step that takes its own member's
/// mount or record away.
spec fn waits(steps: Seq<DraftStep>) -> bool {
    forall|x: int, y: int|
        0 <= x < steps.len() && 0 <= y < steps.len() && (#[trigger] steps[x]).action is Mount && (
        #[trigger] steps[y]).action.phase() == 0 && steps[x].action.key() == steps[y].action.key()
            ==> steps[x].needs.contains(y as usize)
}

/// Whether the steps of departing records are known by their keys.
spec fn knows_removals(gone: Departed, keys: Seq<KeyView>) -> bool {
    &&& forall|k: KeyView| #[trigger] gone.removals.contains_key(k) ==> keys.contains(k)
    &&& forall|y: int|
        0 <= y < gone.draft.steps.len() ==> {
            let k = (#[trigger] gone.draft.steps[y]).action.key();
            &&& gone.draft.steps[y].action.phase() == 0
            &&& gone.removals.contains_key(k)
            &&& gone.removals[k] == Some(y as usize)
        }
}

proof fn lemma_knows_removals(input: InputView, keys: Seq<KeyView>)
    requires
        keyed(input.state),
        keys.no_duplicates(),
        forall|i: int| 0 <= i < keys.len() ==> input.state.contains_key(#[trigger] keys[i]),
        depart_over(input, keys).draft.steps.len() <= usize::MAX,
    ensures
        knows_removals(depart_over(input, keys), keys),
    decreases keys.len(),
{
    if keys.len() > 0 {
        let front = keys.drop_last();
        let key = keys.last();
        assert forall|i: int| 0 <= i < front.len() implies input.state.contains_key(
            #[trigger] front[i],
        ) by {
            assert(front[i] == keys[i]);
        }
        assert(front.no_duplicates()) by {
            assert forall|i: int, j: int| 0 <= i < front.len() && 0 <= j < front.len() && i != j implies front[i]
                != front[j] by {
                assert(keys[i] != keys[j]);
            }
        }
        lemma_knows_removals(input, front);
        assert(input.state.contains_key(keys[keys.len() - 1]));
        let record = input.state[key];
        assert(record.key() == key);
        let before = depart_over(input, front);
        let after = depart_over(input, keys);
        assert(!front.contains(key)) by {
            if front.contains(key) {
                let i = choose|i: int| 0 <= i < front.len() && front[i] == key;
                assert(keys[i] == keys[keys.len() - 1]);
            }
        }
        assert forall|k: KeyView| front.contains(k) implies keys.contains(k) by {
            let i = choose|i: int| 0 <= i < front.len() && front[i] == k;
            assert(keys[i] == k);
        }
        assert(keys[keys.len() - 1] == key);
        assert(keys.contains(key));
        if departs(input, record) {
            assert(after == depart_one(input, before, record));
            assert forall|y: int| 0 <= y < after.draft.steps.len() implies {
                let k = (#[trigger] after.draft.steps[y]).action.key();
                &&& after.draft.steps[y].action.phase() == 0
                &&& after.removals.contains_key(k)
                &&& after.removals[k] == Some(y as usize)
            } by {
                if y < before.draft.steps.len() {
                    assert(after.draft.steps[y] == before.draft.steps[y]);
                    let k = before.draft.steps[y].action.key();
                    assert(before.removals.contains_key(k));
                    assert(k != key);
                } else {
                    assert(y == before.draft.steps.len());
                }
            }
        }
    }
}

proof fn lemma_draft_only_grows(input: InputView, keys: Seq<KeyView>, n: int)
    requires
        0 <= n <= keys.len(),
    ensures
        decide_over(input, keys.take(n)).steps.len() <= decide_over(input, keys).steps.len(),
        departed(input).draft.steps.len() <= decide_over(input, keys).steps.len(),
    decreases keys.len() - n, keys.len(),
{
    if n < keys.len() {
        assert(keys.take(n + 1).drop_last() =~= keys.take(n));
        lemma_draft_only_grows(input, keys, n + 1);
    } else {
        assert(keys.take(n) =~= keys);
        if keys.len() > 0 {
            let front = keys.drop_last();
            lemma_draft_only_grows(input, front, front.len() as int);
        }
    }
}

proof fn lemma_waits(input: InputView, keys: Seq<KeyView>, records: Seq<KeyView>)
    requires
        keyed(input.state),
        keys.no_duplicates(),
        forall|i: int| 0 <= i < keys.len() ==> accepted(input).contains_key(#[trigger] keys[i]),
        knows_removals(departed(input), records),
        decide_over(input, keys).steps.len() <= usize::MAX,
        forall|k: KeyView| #[trigger]
            departed(input).removals.contains_key(k) ==> leaves(input, k),
    ensures
        waits(decide_over(input, keys).steps),
        forall|y: int|
            departed(input).draft.steps.len() <= y < decide_over(input, keys).steps.len()
                ==> keys.contains((#[trigger] decide_over(input, keys).steps[y]).action.key()),
        forall|y: int|
            0 <= y < departed(input).draft.steps.len() ==> decide_over(input, keys).steps[y]
                == #[trigger] departed(input).draft.steps[y],
        decide_over(input, keys).steps.len() >= departed(input).draft.steps.len(),
    decreases keys.len(),
{
    let gone = departed(input);
    let base = gone.draft.steps;
    if keys.len() == 0 {
        assert(decide_over(input, keys).steps =~= base);
    } else {
        let front = keys.drop_last();
        let key = keys.last();
        assert forall|i: int| 0 <= i < front.len() implies accepted(input).contains_key(
            #[trigger] front[i],
        ) by {
            assert(front[i] == keys[i]);
        }
        assert(front.no_duplicates()) by {
            assert forall|i: int, j: int| 0 <= i < front.len() && 0 <= j < front.len() && i != j implies front[i]
                != front[j] by {
                assert(keys[i] != keys[j]);
            }
        }
        lemma_draft_only_grows(input, keys, keys.len() - 1);
        assert(keys.take(keys.len() - 1) =~= front);
        lemma_waits(input, front, records);
        assert(accepted(input).contains_key(keys[keys.len() - 1]));
        lemma_accepted(input, key);
        let d = accepted(input)[key];
        let draft = decide_over(input, front);
        let before = draft.steps;
        let after = decide_over(input, keys).steps;
        assert(!front.contains(key)) by {
            if front.contains(key) {
                let i = choose|i: int| 0 <= i < front.len() && front[i] == key;
                assert(keys[i] == keys[keys.len() - 1]);
            }
        }
        assert forall|k: KeyView| front.contains(k) implies keys.contains(k) by {
            let i = choose|i: int| 0 <= i < front.len() && front[i] == k;
            assert(keys[i] == k);
        }
        assert(keys[keys.len() - 1] == key);
        assert(keys.contains(key));
        if is_recorded(input, d) {
            assert(input.state[key].key() == key);
            assert(!leaves(input, key));
        }
        assert(after == decide_member(input, gone, draft, d).steps);
        lemma_member_waits(input, gone, before, after, d);
        assert forall|x: int, y: int|
            0 <= x < after.len() && 0 <= y < after.len() && (#[trigger] after[x]).action is Mount && (
            #[trigger] after[y]).action.phase() == 0 && after[x].action.key()
                == after[y].action.key() implies after[x].needs.contains(y as usize) by {
            if x < before.len() && y < before.len() {
                assert(before[x].action is Mount && before[y].action.phase() == 0);
            } else if x < before.len() {
                assert(after[y].action.key() == key);
                if x < base.len() {
                    assert(base[x].action.phase() == 0);
                } else {
                    assert(front.contains(before[x].action.key()));
                }
            } else if y < before.len() {
                assert(after[x].action.key() == key);
                if y < base.len() {
                    assert(base[y] == after[y]);
                    assert(gone.removals.contains_key(key));
                    assert(gone.removals[key] == Some(y as usize));
                } else {
                    assert(front.contains(before[y].action.key()));
                }
            }
        }
    }
}

/// What deciding about one member adds: steps about it, and a mount needs the
/// step that removes the member's record and the unmount before it.
proof fn lemma_member_waits(
    input: InputView,
    gone: Departed,
    before: Seq<DraftStep>,
    after: Seq<DraftStep>,
    d: DesiredView,
)
    requires
        keyed(input.state),
        exists|draft: Draft|
            draft.steps == before && after == #[trigger] decide_member(input, gone, draft, d).steps,
        is_recorded(input, d) ==> !gone.removals.contains_key(d.key),
        after.len() <= usize::MAX,
    ensures
        after.len() >= before.len(),
        forall|x: int| 0 <= x < before.len() ==> after[x] == #[trigger] before[x],
        forall|x: int|
            before.len() <= x < after.len() ==> (#[trigger] after[x]).action.key() == d.key,
        forall|x: int|
            before.len() <= x < after.len() && (#[trigger] after[x]).action is Mount
                && gone.removals.contains_key(d.key) ==> (gone.removals[d.key] matches Some(id)
                && after[x].needs.contains(id)),
        forall|x: int, y: int|
            before.len() <= x < after.len() && before.len() <= y < after.len() && (
            #[trigger] after[x]).action is Mount && (#[trigger] after[y]).action.phase() == 0
                ==> after[x].needs.contains(y as usize),
{
    let draft = choose|draft: Draft|
        draft.steps == before && after == #[trigger] decide_member(input, gone, draft, d).steps;
    if is_recorded(input, d) {
        assert(input.state[d.key].key() == d.key);
        let n = before.len() as usize;
        assert(seq![n][0] == n);
        assert(seq![n].contains(n));
    } else if gone.removals.contains_key(d.key) && gone.removals[d.key] is Some {
        let id = gone.removals[d.key]->0;
        assert(seq![id][0] == id);
        assert forall|more: usize| (#[trigger] seq![id].push(more)).contains(id) by {
            assert(seq![id].push(more)[0] == id);
        }
        assert(seq![id].contains(id));
    }
}

/// A mount depends on every step that takes its own member's old mount or
/// record away, so it is not made if that fails.
pub proof fn law_mounts_wait_for_their_removal(input: InputView, i: int, j: int)
    requires
        plannable(input),
        0 <= i < planned(input).steps.len(),
        0 <= j < planned(input).steps.len(),
        planned(input).steps[i].action matches ActionView::Mount { desired } && is_about(
            planned(input).steps[j].action,
            desired.key,
        ),
        planned(input).steps[j].action is Unmount || planned(input).steps[j].action is DropRecord,
    ensures
        planned(input).steps[i].depends_on.contains(j as usize),
{
    let steps = decided(input).steps;
    let order = execution_order(steps);
    lemma_execution_order(steps);
    let keys = in_order::<RecordKey>(accepted(input).dom());
    lemma_accepted_keys(input);
    crate::order::lemma_ascending_distinct::<RecordKey>(keys);
    assert forall|n: int| 0 <= n < keys.len() implies accepted(input).contains_key(
        #[trigger] keys[n],
    ) by {
        assert(keys.to_set().contains(keys[n]));
    }
    let records = in_order::<RecordKey>(input.state.dom());
    crate::order::lemma_in_order_finite::<RecordKey>(input.state.dom());
    crate::order::lemma_ascending_distinct::<RecordKey>(records);
    assert forall|n: int| 0 <= n < records.len() implies input.state.contains_key(
        #[trigger] records[n],
    ) by {
        assert(records.to_set().contains(records[n]));
    }
    lemma_draft_only_grows(input, keys, keys.len() as int);
    lemma_knows_removals(input, records);
    lemma_removals_leave(input, records);
    lemma_waits(input, keys, records);
    let x = order[i] as int;
    let y = order[j] as int;
    assert(steps[x].action is Mount && steps[y].action.phase() == 0);
    assert(steps[x].needs.contains(y as usize));
    let m = choose|m: int| 0 <= m < steps[x].needs.len() && steps[x].needs[m] == y as usize;
    lemma_positions(order, steps[x].needs);
    assert(order[j] == steps[x].needs[m]);
    let at = order.index_of(steps[x].needs[m]);
    assert(order[at] == order[j]);
    assert(at == j);
    assert(planned(input).steps[i].depends_on == positions(order, steps[x].needs));
}

proof fn lemma_removals_leave(input: InputView, keys: Seq<KeyView>)
    requires
        keyed(input.state),
        forall|i: int| 0 <= i < keys.len() ==> input.state.contains_key(#[trigger] keys[i]),
    ensures
        forall|k: KeyView| #[trigger]
            depart_over(input, keys).removals.contains_key(k) ==> leaves(input, k),
    decreases keys.len(),
{
    if keys.len() > 0 {
        let front = keys.drop_last();
        assert forall|i: int| 0 <= i < front.len() implies input.state.contains_key(
            #[trigger] front[i],
        ) by {
            assert(front[i] == keys[i]);
        }
        lemma_removals_leave(input, front);
        assert(input.state.contains_key(keys[keys.len() - 1]));
        let key = keys.last();
        let record = input.state[key];
        assert(record.key() == key);
        let before = depart_over(input, front);
        assert forall|k: KeyView| #[trigger]
            depart_over(input, keys).removals.contains_key(k) implies leaves(input, k) by {
            if departs(input, record) {
                if k != key {
                    assert(before.removals.contains_key(k));
                }
            } else {
                assert(before.removals.contains_key(k));
            }
        }
    }
}

// Contended targets.

/// Whether two desired mounts of groups that are not frozen want one target.
pub open spec fn contend(input: InputView, i: int, j: int) -> bool {
    &&& 0 <= i < input.desired.len()
    &&& 0 <= j < input.desired.len()
    &&& i != j
    &&& input.desired[i].target == input.desired[j].target
    &&& !input.frozen.contains(input.desired[i].key.group)
    &&& !input.frozen.contains(input.desired[j].key.group)
}

/// Whether the desired mount is recorded just where it is wanted, and the
/// recorded mount is seen there.
pub open spec fn has_target(input: InputView, d: DesiredView) -> bool {
    &&& input.state.contains_key(d.key)
    &&& input.state[d.key].source_root == d.source.root
    &&& input.state[d.key].source == d.source.path
    &&& input.state[d.key].target_root == d.target.root
    &&& input.state[d.key].target == d.target.path
    &&& input.targets.contains_key(d.target)
    &&& input.targets[d.target] matches TargetView::Mounted { identity, attrs }
        && is_recorded_mount(identity, input.state[d.key].identity)
}

proof fn lemma_wanted_both(input: InputView, i: int, j: int, n: int)
    requires
        contend(input, i, j),
        0 <= n <= input.desired.len(),
    ensures
        ({
            let all = wanted_at(input.desired.take(n), input.frozen, input.desired[i].target);
            &&& all.len() >= (if i < n {
                1int
            } else {
                0
            }) + (if j < n {
                1int
            } else {
                0
            })
            &&& i < n ==> all.contains(input.desired[i])
            &&& j < n ==> all.contains(input.desired[j])
            &&& forall|k: int| 0 <= k < all.len() ==> input.desired.contains(#[trigger] all[k])
            &&& i < n ==> wanted_targets(input.desired.take(n), input.frozen).contains(
                input.desired[i].target,
            )
            &&& wanted_targets(input.desired.take(n), input.frozen).finite()
        }),
    decreases n,
{
    let target = input.desired[i].target;
    let head = input.desired.take(n);
    if n > 0 {
        lemma_wanted_both(input, i, j, n - 1);
        let front = input.desired.take(n - 1);
        assert(head.drop_last() =~= front);
        assert(head.last() == input.desired[n - 1]);
        let before = wanted_at(front, input.frozen, target);
        let all = wanted_at(head, input.frozen, target);
        assert forall|x: DesiredView| before.contains(x) implies all.contains(x) by {
            let k = choose|k: int| 0 <= k < before.len() && before[k] == x;
            assert(all[k] == x);
        }
        if all.len() > before.len() {
            assert(all[before.len() as int] == input.desired[n - 1]);
        }
        assert forall|k: int| 0 <= k < all.len() implies input.desired.contains(
            #[trigger] all[k],
        ) by {
            if k < before.len() {
                assert(all[k] == before[k]);
            }
        }
    }
}

proof fn lemma_insert_has(members: Seq<DesiredView>, d: DesiredView, x: DesiredView)
    ensures
        insert_by_key(members, d).contains(x) <==> members.contains(x) || x == d,
    decreases members.len(),
{
    let all = insert_by_key(members, d);
    if members.len() > 0 && RecordKey::before(d.key, members.last().key) {
        let front = members.drop_last();
        lemma_insert_has(front, d, x);
        let inner = insert_by_key(front, d);
        assert(members =~= front.push(members.last()));
        lemma_push_has(front, members.last(), x);
        lemma_push_has(inner, members.last(), x);
    } else {
        lemma_push_has(members, d, x);
    }
}

proof fn lemma_push_has(s: Seq<DesiredView>, last: DesiredView, x: DesiredView)
    ensures
        s.push(last).contains(x) <==> s.contains(x) || x == last,
{
    let all = s.push(last);
    if s.contains(x) {
        let k = choose|k: int| 0 <= k < s.len() && s[k] == x;
        assert(all[k] == x);
    }
    if all.contains(x) && x != last {
        let k = choose|k: int| 0 <= k < all.len() && all[k] == x;
        assert(s[k] == x);
    }
    assert(all[s.len() as int] == last);
}

proof fn lemma_by_key_has(members: Seq<DesiredView>, x: DesiredView)
    ensures
        by_key(members).contains(x) <==> members.contains(x),
    decreases members.len(),
{
    if members.len() > 0 {
        let front = members.drop_last();
        lemma_by_key_has(front, x);
        lemma_insert_has(by_key(front), members.last(), x);
        assert(members =~= front.push(members.last()));
        lemma_push_has(front, members.last(), x);
    }
}

proof fn lemma_first_holder(input: InputView, members: Seq<DesiredView>)
    ensures
        first_holder(input, members) matches Some(d) ==> members.contains(d)
            && holds_target(input, d),
        first_holder(input, members) is None ==> forall|k: int|
            0 <= k < members.len() ==> !holds_target(
                input,
                #[trigger] members[k],
            ),
    decreases members.len(),
{
    if members.len() > 0 {
        let front = members.drop_last();
        lemma_first_holder(input, front);
        assert(members =~= front.push(members.last()));
        if first_holder(input, members) is Some {
            lemma_push_has(front, members.last(), first_holder(input, members)->0);
        } else {
            assert forall|k: int| 0 <= k < members.len() implies !holds_target(
                input,
                #[trigger] members[k],
            ) by {
                if k < front.len() {
                    assert(front[k] == members[k]);
                }
            }
        }
    }
}

proof fn lemma_has_target(input: InputView, d: DesiredView)
    ensures
        holds_target(input, d) <==> has_target(input, d),
{
    if input.state.contains_key(d.key) {
        let record = input.state[d.key];
        if record.source_root == d.source.root && record.source == d.source.path
            && record.target_root == d.target.root && record.target == d.target.path {
            assert(record.target_location() == d.target);
            assert(record.source_location() == d.source);
        }
        if is_recorded_at(record, d) {
            assert(record.target_location() == d.target);
        }
    }
}

proof fn lemma_collision_found(input: InputView, targets: Seq<LocationView>, target: LocationView)
    requires
        targets.contains(target),
        wanted_at(input.desired, input.frozen, target).len() != 1,
    ensures
        collisions_over(input, targets).contains(
            FindingView::TargetCollision {
                target,
                members: contenders(input, target).map_values(|d: DesiredView| d.key),
                kept: match admitted(input, target) {
                    Some(d) => Some(d.key),
                    None => None,
                },
            },
        ),
    decreases targets.len(),
{
    let front = targets.drop_last();
    let before = collisions_over(input, front);
    let all = collisions_over(input, targets);
    let f = FindingView::TargetCollision {
        target,
        members: contenders(input, target).map_values(|d: DesiredView| d.key),
        kept: match admitted(input, target) {
            Some(d) => Some(d.key),
            None => None,
        },
    };
    if targets.last() == target {
        assert(all[all.len() - 1] == f);
    } else {
        let k = choose|k: int| 0 <= k < targets.len() && targets[k] == target;
        assert(front[k] == target);
        lemma_collision_found(input, front, target);
        let n = choose|n: int| 0 <= n < before.len() && before[n] == f;
        assert(all[n] == f);
    }
}

/// Where members contend for a target, all of them are reported together; the
/// one that is kept has the target already, and if none has it, none is kept
/// and nothing is mounted there.
pub proof fn law_contended_targets_are_reported(input: InputView, i: int, j: int) -> (kept: Option<KeyView>)
    requires
        plannable(input),
        contend(input, i, j),
    ensures
        exists|n: int|
            0 <= n < planned(input).findings.len() && (
            #[trigger] planned(input).findings[n] matches FindingView::TargetCollision {
                target,
                members,
                kept: k,
            } && target == input.desired[i].target && members.contains(input.desired[i].key)
                && members.contains(input.desired[j].key) && k == kept),
        kept matches Some(key) ==> exists|n: int|
            0 <= n < input.desired.len() && (#[trigger] input.desired[n]).key == key
                && input.desired[n].target == input.desired[i].target && has_target(
                input,
                input.desired[n],
            ),
        kept is None ==> forall|n: int|
            0 <= n < planned(input).steps.len() ==> ((
            #[trigger] planned(input).steps[n]).action matches ActionView::Mount { desired }
                ==> desired.target != input.desired[i].target),
        has_target(input, input.desired[i]) || has_target(input, input.desired[j]) ==> kept is Some,
{
    let target = input.desired[i].target;
    let wanted = wanted_at(input.desired, input.frozen, target);
    lemma_wanted_both(input, i, j, input.desired.len() as int);
    assert(input.desired.take(input.desired.len() as int) =~= input.desired);
    assert(wanted.len() >= 2);
    let targets = targets_in_order(input);
    crate::order::lemma_in_order_finite::<Location>(wanted_targets(input.desired, input.frozen));
    assert(targets.to_set().contains(target));
    lemma_collision_found(input, targets, target);
    let all = contenders(input, target);
    let keys = all.map_values(|d: DesiredView| d.key);
    lemma_by_key_has(wanted, input.desired[i]);
    lemma_by_key_has(wanted, input.desired[j]);
    let a = choose|a: int| 0 <= a < all.len() && all[a] == input.desired[i];
    let b = choose|b: int| 0 <= b < all.len() && all[b] == input.desired[j];
    assert(keys[a] == input.desired[i].key);
    assert(keys[b] == input.desired[j].key);
    lemma_first_holder(input, all);
    lemma_has_target(input, input.desired[i]);
    lemma_has_target(input, input.desired[j]);
    let kept = match admitted(input, target) {
        Some(d) => Some(d.key),
        None => None,
    };
    let f = FindingView::TargetCollision { target, members: keys, kept };
    law_plan_reports_what_is_due(input, f);
    let n = choose|n: int| 0 <= n < planned(input).findings.len() && planned(input).findings[n] == f;
    assert(planned(input).findings[n] == f);
    if admitted(input, target) is Some {
        let d = admitted(input, target)->0;
        lemma_has_target(input, d);
        crate::reconcile::laws::lemma_admitted(input, target);
        lemma_by_key_has(wanted, d);
        let m = choose|m: int| 0 <= m < wanted.len() && wanted[m] == d;
        assert(input.desired.contains(wanted[m]));
    } else {
        assert forall|n: int| 0 <= n < planned(input).steps.len() implies ((
        #[trigger] planned(input).steps[n]).action matches ActionView::Mount { desired }
            ==> desired.target != target) by {
            let action = planned(input).steps[n].action;
            if action is Mount {
                let d = action->desired;
                assert(takes(planned(input), action));
                lemma_steps_have_a_cause(input, action, d.key);
                assert(accepted(input).contains_key(d.key));
                lemma_accepted(input, d.key);
                let e = accepted(input)[d.key];
                let m = choose|m: int|
                    0 <= m < member_actions(input, e).len() && member_actions(input, e)[m]
                        == action;
                assert(member_actions(input, e)[m] == action);
            }
        }
    }
    kept
}

} // verus!
