//! The decision table, member by member: which steps a plan has and what it
//! reports, without regard to their order.
use vstd::prelude::*;

use crate::identity::is_recorded_mount;
use crate::name::GroupIdView;
use crate::order::in_order;
use crate::reconcile::decision::{accepted, accepted_over, admitted, arranged, collisions_over, contenders, decide_member, decide_over, decided, depart_one, depart_over, departed, departs, departure_reason, execution_order, is_recorded_at, lacks_attrs, planned, relaxed, targets_in_order, tightened, wanted_at, wanted_targets, Departed, Draft, DraftStep, InputView};
use crate::reconcile::laws::{lemma_accepted, lemma_accepted_keys, lemma_admitted, lemma_contenders, lemma_execution_order, plannable, settled};
use crate::reconcile::plan::{ActionView, ConflictKind, DesiredView, DropReasonView, FindingView, Location, LocationView, PlanView, SourceView, TargetView, UnmountReasonView};
use crate::state::{keyed, KeyView, RecordKey, RecordView};

verus! {

// What becomes of a record that is not wanted where it is.

/// What is done about a departing record.
pub open spec fn departure_action(input: InputView, record: RecordView) -> Option<ActionView> {
    match input.target(record.target_location()) {
        TargetView::NotMounted => Some(
            ActionView::DropRecord { record, reason: DropReasonView::MountGone },
        ),
        TargetView::Mounted { identity, attrs } => if is_recorded_mount(
            identity,
            record.identity,
        ) {
            Some(ActionView::Unmount { record, reason: departure_reason(input, record.key()) })
        } else {
            Some(ActionView::DropRecord { record, reason: DropReasonView::ForeignMountAtTarget })
        },
        TargetView::Unavailable(_) => None,
    }
}

/// What is reported of a departing record.
pub open spec fn departure_finding(input: InputView, record: RecordView) -> Option<FindingView> {
    match input.target(record.target_location()) {
        TargetView::Unavailable(reason) => Some(
            FindingView::TargetUnavailable {
                key: record.key(),
                target: record.target_location(),
                reason,
            },
        ),
        _ => None,
    }
}

/// Whether the record under the key departs.
pub open spec fn leaves(input: InputView, key: KeyView) -> bool {
    input.state.contains_key(key) && departs(input, input.state[key])
}

/// Whether a member cannot move, as its old mount cannot be inspected.
pub open spec fn is_blocked(input: InputView, key: KeyView) -> bool {
    leaves(input, key) && input.target(input.state[key].target_location()) is Unavailable
}

/// Whether the departing record under the key has its mount at the target.
pub open spec fn vacates(input: InputView, key: KeyView, target: LocationView) -> bool {
    leaves(input, key) && input.state[key].target_location() == target && input.is_mounted(
        input.state[key],
    )
}

/// Whether the mount at the target is one that the pass removes.
pub open spec fn is_vacated(input: InputView, target: LocationView) -> bool {
    exists|key: KeyView| #[trigger] vacates(input, key, target)
}

// What becomes of a member.

/// Whether an accepted member has a record at its desired location.
pub open spec fn is_recorded(input: InputView, d: DesiredView) -> bool {
    input.state.contains_key(d.key) && is_recorded_at(input.state[d.key], d)
}

/// Whether a member without a record finds its target free, or free in time.
pub open spec fn is_free(input: InputView, d: DesiredView) -> bool {
    match input.target(d.target) {
        TargetView::NotMounted => true,
        TargetView::Mounted { identity, attrs } => is_vacated(input, d.target),
        TargetView::Unavailable(_) => false,
    }
}

/// What is done for a member with a record at its desired location.
pub open spec fn recorded_actions(input: InputView, d: DesiredView, record: RecordView) -> Seq<
    ActionView,
> {
    match (input.target(d.target), input.source(d.key)) {
        (TargetView::Mounted { identity, attrs }, source) => if !is_recorded_mount(
            identity,
            record.identity,
        ) {
            seq![]
        } else {
            match source {
                SourceView::Resolved(root) => if root != record.identity.root {
                    seq![
                        ActionView::Unmount { record, reason: UnmountReasonView::SourceChanged },
                        ActionView::Mount { desired: d },
                    ]
                } else if relaxed(record, d.attrs) {
                    seq![
                        ActionView::Unmount { record, reason: UnmountReasonView::AttributesRelaxed },
                        ActionView::Mount { desired: d },
                    ]
                } else if lacks_attrs(attrs, d.attrs) {
                    seq![ActionView::Reattr { record, attrs: d.attrs }]
                } else if tightened(record, d.attrs) {
                    seq![
                        ActionView::Unmount { record, reason: UnmountReasonView::AttributesChanged },
                        ActionView::Mount { desired: d },
                    ]
                } else {
                    seq![]
                },
                SourceView::Unavailable(reason) => seq![
                    ActionView::Unmount { record, reason: UnmountReasonView::SourceGone(reason) },
                ],
            }
        },
        (TargetView::NotMounted, SourceView::Resolved(_)) => seq![ActionView::Mount { desired: d }],
        (TargetView::NotMounted, SourceView::Unavailable(reason)) => seq![
            ActionView::DropRecord { record, reason: DropReasonView::SourceUnavailable(reason) },
        ],
        (TargetView::Unavailable(_), _) => seq![],
    }
}

/// What is done for an accepted member.
pub open spec fn member_actions(input: InputView, d: DesiredView) -> Seq<ActionView> {
    if is_recorded(input, d) {
        recorded_actions(input, d, input.state[d.key])
    } else if !is_blocked(input, d.key) && is_free(input, d) && input.source(d.key) is Resolved {
        seq![ActionView::Mount { desired: d }]
    } else {
        seq![]
    }
}

/// What is reported of an accepted member.
pub open spec fn member_finding(input: InputView, d: DesiredView) -> Option<FindingView> {
    let key = d.key;
    if !is_recorded(input, d) && is_blocked(input, key) {
        Some(
            FindingView::RelocationBlocked {
                key,
                old_target: input.state[key].target_location(),
            },
        )
    } else {
        match input.target(d.target) {
            TargetView::Unavailable(reason) => Some(
                FindingView::TargetUnavailable { key, target: d.target, reason },
            ),
            TargetView::Mounted { identity, attrs } if is_recorded(input, d) => if is_recorded_mount(
                identity,
                input.state[key].identity,
            ) {
                None
            } else {
                Some(
                    FindingView::Conflict {
                        key,
                        target: d.target,
                        kind: ConflictKind::TargetReplaced,
                    },
                )
            },
            TargetView::Mounted { .. } if !is_vacated(input, d.target) => Some(
                FindingView::Conflict { key, target: d.target, kind: ConflictKind::ForeignMount },
            ),
            _ => match input.source(key) {
                SourceView::Resolved(_) => None,
                SourceView::Unavailable(reason) => Some(
                    FindingView::SourceUnavailable { key, source: d.source, reason },
                ),
            },
        }
    }
}

// Drafts.

/// Whether a draft has a step with the action.
pub open spec fn drafts(steps: Seq<DraftStep>, action: ActionView) -> bool {
    exists|i: int| 0 <= i < steps.len() && (#[trigger] steps[i]).action == action
}

/// Whether a draft is another one with actions and a finding added.
spec fn adds(
    before: Draft,
    after: Draft,
    actions: Seq<ActionView>,
    finding: Option<FindingView>,
) -> bool {
    &&& after.steps.len() == before.steps.len() + actions.len()
    &&& forall|i: int| 0 <= i < before.steps.len() ==> after.steps[i] == #[trigger] before.steps[i]
    &&& forall|i: int|
        0 <= i < actions.len() ==> after.steps[before.steps.len() + i].action
            == #[trigger] actions[i]
    &&& after.findings == (match finding {
        Some(f) => before.findings.push(f),
        None => before.findings,
    })
}

proof fn lemma_adds(
    before: Draft,
    after: Draft,
    actions: Seq<ActionView>,
    finding: Option<FindingView>,
    action: ActionView,
    f: FindingView,
)
    requires
        adds(before, after, actions, finding),
    ensures
        drafts(after.steps, action) <==> drafts(before.steps, action) || actions.contains(action),
        after.findings.contains(f) <==> before.findings.contains(f) || finding == Some(f),
{
    let n = before.steps.len() as int;
    if drafts(after.steps, action) {
        let i = choose|i: int|
            0 <= i < after.steps.len() && (#[trigger] after.steps[i]).action == action;
        if i < n {
            assert(before.steps[i].action == action);
        } else {
            assert(actions[i - n] == action);
        }
    }
    if drafts(before.steps, action) {
        let i = choose|i: int|
            0 <= i < before.steps.len() && (#[trigger] before.steps[i]).action == action;
        assert(after.steps[i].action == action);
    }
    if actions.contains(action) {
        let i = choose|i: int| 0 <= i < actions.len() && actions[i] == action;
        assert(after.steps[n + i].action == action);
    }
    if finding is Some {
        let all = before.findings.push(finding->0);
        if before.findings.contains(f) {
            let i = choose|i: int| 0 <= i < before.findings.len() && before.findings[i] == f;
            assert(all[i] == f);
        }
        if all.contains(f) {
            let i = choose|i: int| 0 <= i < all.len() && all[i] == f;
            if i < before.findings.len() {
                assert(before.findings[i] == f);
            }
        }
        assert(all[all.len() - 1] == finding->0);
    }
}

spec fn one(action: Option<ActionView>) -> Seq<ActionView> {
    match action {
        Some(a) => seq![a],
        None => seq![],
    }
}

proof fn lemma_one(action: Option<ActionView>, a: ActionView)
    ensures
        one(action).contains(a) <==> action == Some(a),
{
    if action is Some {
        assert(one(action)[0] == action->0);
    }
}

// Departing records.

/// What the departing records among the keys leave behind.
spec fn left_behind(input: InputView, keys: Seq<KeyView>, gone: Departed) -> bool {
    &&& forall|k: KeyView| #[trigger]
        gone.removals.contains_key(k) <==> keys.contains(k) && leaves(input, k)
    &&& forall|k: KeyView| #[trigger]
        gone.removals.contains_key(k) ==> (gone.removals[k] is None <==> is_blocked(input, k))
    &&& forall|l: LocationView| #[trigger]
        gone.freed.contains_key(l) <==> exists|k: KeyView|
            keys.contains(k) && #[trigger] vacates(input, k, l)
    &&& forall|l: LocationView| #[trigger]
        gone.freed.contains_key(l) ==> (input.target(l) matches TargetView::Mounted {
            identity,
            attrs,
        } && gone.freed[l].1 == identity)
}

proof fn lemma_depart_adds(input: InputView, gone: Departed, record: RecordView)
    ensures
        adds(
            gone.draft,
            depart_one(input, gone, record).draft,
            one(departure_action(input, record)),
            departure_finding(input, record),
        ),
{
}

proof fn lemma_left_behind(input: InputView, keys: Seq<KeyView>)
    requires
        keyed(input.state),
        forall|i: int| 0 <= i < keys.len() ==> input.state.contains_key(#[trigger] keys[i]),
    ensures
        left_behind(input, keys, depart_over(input, keys)),
    decreases keys.len(),
{
    if keys.len() > 0 {
        let front = keys.drop_last();
        let key = keys.last();
        assert(keys =~= front.push(key));
        assert forall|i: int| 0 <= i < front.len() implies input.state.contains_key(
            #[trigger] front[i],
        ) by {
            assert(front[i] == keys[i]);
        }
        lemma_left_behind(input, front);
        assert(input.state.contains_key(keys[keys.len() - 1]));
        let record = input.state[key];
        assert(record.key() == key);
        let before = depart_over(input, front);
        let after = depart_over(input, keys);
        assert forall|k: KeyView| keys.contains(k) <==> front.contains(k) || k == key by {
            if keys.contains(k) {
                let i = choose|i: int| 0 <= i < keys.len() && keys[i] == k;
                if i < front.len() {
                    assert(front[i] == k);
                }
            }
            if front.contains(k) {
                let i = choose|i: int| 0 <= i < front.len() && front[i] == k;
                assert(keys[i] == k);
            }
            assert(keys[keys.len() - 1] == key);
        }
        assert forall|l: LocationView| #[trigger]
            after.freed.contains_key(l) <==> exists|k: KeyView|
                keys.contains(k) && #[trigger] vacates(input, k, l) by {
            if after.freed.contains_key(l) {
                if before.freed.contains_key(l) {
                    let k = choose|k: KeyView|
                        front.contains(k) && #[trigger] vacates(input, k, l);
                    assert(keys.contains(k) && vacates(input, k, l));
                } else {
                    assert(keys.contains(key) && vacates(input, key, l));
                }
            }
            if exists|k: KeyView| keys.contains(k) && #[trigger] vacates(input, k, l) {
                let k = choose|k: KeyView| keys.contains(k) && #[trigger] vacates(input, k, l);
                if front.contains(k) {
                    assert(before.freed.contains_key(l));
                }
            }
        }
    }
}

proof fn lemma_departures(input: InputView, keys: Seq<KeyView>, action: ActionView, f: FindingView)
    requires
        keyed(input.state),
        forall|i: int| 0 <= i < keys.len() ==> input.state.contains_key(#[trigger] keys[i]),
    ensures
        drafts(depart_over(input, keys).draft.steps, action) <==> exists|k: KeyView| #[trigger]
            keys.contains(k) && leaves(input, k) && departure_action(input, input.state[k]) == Some(
                action,
            ),
        depart_over(input, keys).draft.findings.contains(f) <==> collisions_over(
            input,
            targets_in_order(input),
        ).contains(f) || exists|k: KeyView| #[trigger]
            keys.contains(k) && leaves(input, k) && departure_finding(input, input.state[k])
                == Some(f),
    decreases keys.len(),
{
    if keys.len() > 0 {
        let front = keys.drop_last();
        let key = keys.last();
        assert forall|i: int| 0 <= i < front.len() implies input.state.contains_key(
            #[trigger] front[i],
        ) by {
            assert(front[i] == keys[i]);
        }
        lemma_departures(input, front, action, f);
        assert(input.state.contains_key(keys[keys.len() - 1]));
        assert(keys.contains(key));
        assert forall|k: KeyView| front.contains(k) implies keys.contains(k) by {
            let i = choose|i: int| 0 <= i < front.len() && front[i] == k;
            assert(keys[i] == k);
        }
        assert forall|k: KeyView| keys.contains(k) implies front.contains(k) || k == key by {
            let i = choose|i: int| 0 <= i < keys.len() && keys[i] == k;
            if i < front.len() {
                assert(front[i] == k);
            }
        }
        let record = input.state[key];
        let before = depart_over(input, front);
        if departs(input, record) {
            lemma_depart_adds(input, before, record);
            lemma_adds(
                before.draft,
                depart_one(input, before, record).draft,
                one(departure_action(input, record)),
                departure_finding(input, record),
                action,
                f,
            );
            lemma_one(departure_action(input, record), action);
        }
    }
}

// Members.

proof fn lemma_member_adds(input: InputView, draft: Draft, d: DesiredView)
    requires
        keyed(input.state),
        left_behind(input, in_order::<RecordKey>(input.state.dom()), departed(input)),
        forall|k: KeyView| #[trigger]
            input.state.contains_key(k) <==> in_order::<RecordKey>(
                input.state.dom(),
            ).contains(k),
    ensures
        adds(
            draft,
            decide_member(input, departed(input), draft, d),
            member_actions(input, d),
            member_finding(input, d),
        ),
{
    let gone = departed(input);
    let after = decide_member(input, gone, draft, d);
    let n = draft.steps.len() as int;
    if is_recorded(input, d) {
        let actions = member_actions(input, d);
        assert(after.steps.len() == n + actions.len());
        assert forall|i: int| 0 <= i < actions.len() implies after.steps[n + i].action
            == #[trigger] actions[i] by {}
    } else {
        assert(gone.removals.contains_key(d.key) ==> (gone.removals[d.key] is None <==> is_blocked(
            input,
            d.key,
        )));
        assert(is_blocked(input, d.key) ==> gone.removals.contains_key(d.key));
        assert(gone.freed.contains_key(d.target) <==> is_vacated(input, d.target)) by {
            if gone.freed.contains_key(d.target) {
                let k = choose|k: KeyView|
                    in_order::<RecordKey>(input.state.dom()).contains(k) && #[trigger] vacates(
                        input,
                        k,
                        d.target,
                    );
                assert(vacates(input, k, d.target));
            }
            if is_vacated(input, d.target) {
                let k = choose|k: KeyView| #[trigger] vacates(input, k, d.target);
                assert(input.state.contains_key(k));
                assert(in_order::<RecordKey>(input.state.dom()).contains(k) && vacates(
                    input,
                    k,
                    d.target,
                ));
            }
        }
    }
}

proof fn lemma_members(input: InputView, keys: Seq<KeyView>, action: ActionView, f: FindingView)
    requires
        keyed(input.state),
        left_behind(input, in_order::<RecordKey>(input.state.dom()), departed(input)),
        forall|k: KeyView| #[trigger]
            input.state.contains_key(k) <==> in_order::<RecordKey>(
                input.state.dom(),
            ).contains(k),
    ensures
        drafts(decide_over(input, keys).steps, action) <==> drafts(
            departed(input).draft.steps,
            action,
        ) || exists|k: KeyView| #[trigger]
            keys.contains(k) && member_actions(input, accepted(input)[k]).contains(action),
        decide_over(input, keys).findings.contains(f) <==> departed(
            input,
        ).draft.findings.contains(f) || exists|k: KeyView| #[trigger]
            keys.contains(k) && member_finding(input, accepted(input)[k]) == Some(f),
    decreases keys.len(),
{
    if keys.len() > 0 {
        let front = keys.drop_last();
        let key = keys.last();
        lemma_members(input, front, action, f);
        assert(keys[keys.len() - 1] == key);
        assert(keys.contains(key));
        assert forall|k: KeyView| front.contains(k) implies keys.contains(k) by {
            let i = choose|i: int| 0 <= i < front.len() && front[i] == k;
            assert(keys[i] == k);
        }
        assert forall|k: KeyView| keys.contains(k) implies front.contains(k) || k == key by {
            let i = choose|i: int| 0 <= i < keys.len() && keys[i] == k;
            if i < front.len() {
                assert(front[i] == k);
            }
        }
        let d = accepted(input)[key];
        let draft = decide_over(input, front);
        lemma_member_adds(input, draft, d);
        lemma_adds(
            draft,
            decide_member(input, departed(input), draft, d),
            member_actions(input, d),
            member_finding(input, d),
            action,
            f,
        );
    }
}

// Plans.

/// Whether a plan has a step with the action.
pub open spec fn takes(plan: PlanView, action: ActionView) -> bool {
    exists|i: int| 0 <= i < plan.steps.len() && (#[trigger] plan.steps[i]).action == action
}

proof fn lemma_arranged(draft: Draft, action: ActionView)
    requires
        draft.steps.len() <= usize::MAX,
    ensures
        takes(arranged(draft), action) <==> drafts(draft.steps, action),
{
    let order = execution_order(draft.steps);
    lemma_execution_order(draft.steps);
    let plan = arranged(draft);
    if takes(plan, action) {
        let i = choose|i: int|
            0 <= i < plan.steps.len() && (#[trigger] plan.steps[i]).action == action;
        assert(order[i] < draft.steps.len());
        assert(draft.steps[order[i] as int].action == action);
    }
    if drafts(draft.steps, action) {
        let id = choose|id: int|
            0 <= id < draft.steps.len() && (#[trigger] draft.steps[id]).action == action;
        assert(order.contains(id as usize));
        let i = choose|i: int| 0 <= i < order.len() && order[i] == id as usize;
        assert(plan.steps[i].action == action);
    }
}

proof fn lemma_records_in_order(input: InputView)
    requires
        input.state.dom().finite(),
    ensures
        forall|k: KeyView| #[trigger]
            input.state.contains_key(k) <==> in_order::<RecordKey>(
                input.state.dom(),
            ).contains(k),
{
    let keys = in_order::<RecordKey>(input.state.dom());
    crate::order::lemma_in_order_finite::<RecordKey>(input.state.dom());
    assert forall|k: KeyView| #[trigger] input.state.contains_key(k) <==> keys.contains(k) by {
        assert(keys.to_set().contains(k) <==> keys.contains(k));
    }
}

/// A plan takes exactly the actions that are due for its departing records and
/// its accepted members, each decided on its own.
pub proof fn law_plan_takes_what_is_due(input: InputView, action: ActionView)
    requires
        plannable(input),
    ensures
        takes(planned(input), action) <==> {
            ||| exists|k: KeyView| #[trigger]
                leaves(input, k) && departure_action(input, input.state[k]) == Some(action)
            ||| exists|k: KeyView| #[trigger]
                accepted(input).contains_key(k) && member_actions(
                    input,
                    accepted(input)[k],
                ).contains(action)
        },
{
    lemma_parts(input, action, arbitrary());
    lemma_arranged(decided(input), action);
}

/// A plan reports exactly the collisions, and what is to be said of its
/// departing records and its accepted members, each on its own.
pub proof fn law_plan_reports_what_is_due(input: InputView, f: FindingView)
    requires
        plannable(input),
    ensures
        planned(input).findings.contains(f) <==> {
            ||| collisions_over(input, targets_in_order(input)).contains(f)
            ||| exists|k: KeyView| #[trigger]
                leaves(input, k) && departure_finding(input, input.state[k]) == Some(f)
            ||| exists|k: KeyView| #[trigger]
                accepted(input).contains_key(k) && member_finding(input, accepted(input)[k])
                    == Some(f)
        },
{
    lemma_parts(input, arbitrary(), f);
}

/// Whether a finding is about a member of the group.
pub open spec fn concerns(f: FindingView, group: GroupIdView) -> bool {
    match f {
        FindingView::Conflict { key, .. } => key.group == group,
        FindingView::SourceUnavailable { key, .. } => key.group == group,
        FindingView::TargetUnavailable { key, .. } => key.group == group,
        FindingView::TargetCollision { members, kept, .. } => (exists|i: int|
            0 <= i < members.len() && (#[trigger] members[i]).group == group) || (
        kept matches Some(key) && key.group == group),
        FindingView::RelocationBlocked { key, .. } => key.group == group,
    }
}

proof fn lemma_collisions(input: InputView, targets: Seq<LocationView>, i: int)
    requires
        0 <= i < collisions_over(input, targets).len(),
    ensures
        forall|g: GroupIdView|
            input.frozen.contains(g) ==> !(#[trigger] concerns(
                collisions_over(input, targets)[i],
                g,
            )),
    decreases targets.len(),
{
    let all = collisions_over(input, targets);
    let front = collisions_over(input, targets.drop_last());
    if i < front.len() {
        lemma_collisions(input, targets.drop_last(), i);
        assert(all[i] == front[i]);
    } else {
        let target = targets.last();
        let members = contenders(input, target);
        lemma_admitted(input, target);
        assert forall|g: GroupIdView| input.frozen.contains(g) implies !(#[trigger] concerns(
            all[i],
            g,
        )) by {
            let keys = members.map_values(|d: DesiredView| d.key);
            assert forall|k: int| 0 <= k < keys.len() implies (#[trigger] keys[k]).group != g by {
                lemma_contenders(input, target, k);
            }
        }
    }
}

/// Nothing is reported of frozen groups: no finding is about a member of one.
pub proof fn law_frozen_groups_are_not_reported(input: InputView, i: int, group: GroupIdView)
    requires
        plannable(input),
        0 <= i < planned(input).findings.len(),
        input.frozen.contains(group),
    ensures
        !concerns(planned(input).findings[i], group),
{
    let f = planned(input).findings[i];
    let collisions = collisions_over(input, targets_in_order(input));
    assert(planned(input).findings.contains(f));
    law_plan_reports_what_is_due(input, f);
    if collisions.contains(f) {
        let j = choose|j: int| 0 <= j < collisions.len() && collisions[j] == f;
        lemma_collisions(input, targets_in_order(input), j);
    } else if exists|k: KeyView| #[trigger]
        leaves(input, k) && departure_finding(input, input.state[k]) == Some(f) {
        let k = choose|k: KeyView| #[trigger]
            leaves(input, k) && departure_finding(input, input.state[k]) == Some(f);
        assert(input.state[k].key() == k);
    } else {
        let k = choose|k: KeyView| #[trigger]
            accepted(input).contains_key(k) && member_finding(input, accepted(input)[k]) == Some(f);
        lemma_accepted(input, k);
    }
}

proof fn lemma_parts(input: InputView, action: ActionView, f: FindingView)
    requires
        plannable(input),
    ensures
        drafts(decided(input).steps, action) <==> {
            ||| exists|k: KeyView| #[trigger]
                leaves(input, k) && departure_action(input, input.state[k]) == Some(action)
            ||| exists|k: KeyView| #[trigger]
                accepted(input).contains_key(k) && member_actions(
                    input,
                    accepted(input)[k],
                ).contains(action)
        },
        decided(input).findings.contains(f) <==> {
            ||| collisions_over(input, targets_in_order(input)).contains(f)
            ||| exists|k: KeyView| #[trigger]
                leaves(input, k) && departure_finding(input, input.state[k]) == Some(f)
            ||| exists|k: KeyView| #[trigger]
                accepted(input).contains_key(k) && member_finding(input, accepted(input)[k])
                    == Some(f)
        },
{
    let records = in_order::<RecordKey>(input.state.dom());
    lemma_records_in_order(input);
    assert forall|i: int| 0 <= i < records.len() implies input.state.contains_key(
        #[trigger] records[i],
    ) by {
        assert(records.contains(records[i]));
    }
    lemma_left_behind(input, records);
    lemma_departures(input, records, action, f);
    lemma_accepted_keys(input);
    let keys = in_order::<RecordKey>(accepted(input).dom());
    assert forall|k: KeyView| #[trigger] accepted(input).contains_key(k) <==> keys.contains(k) by {
        assert(keys.to_set().contains(k) <==> keys.contains(k));
    }
    lemma_members(input, keys, action, f);
    if drafts(departed(input).draft.steps, action) {
        let k = choose|k: KeyView| #[trigger]
            records.contains(k) && leaves(input, k) && departure_action(input, input.state[k])
                == Some(action);
        assert(leaves(input, k));
    }
    if exists|k: KeyView| #[trigger]
        leaves(input, k) && departure_action(input, input.state[k]) == Some(action) {
        let k = choose|k: KeyView| #[trigger]
            leaves(input, k) && departure_action(input, input.state[k]) == Some(action);
        assert(input.state.contains_key(k));
        assert(records.contains(k));
    }
    if exists|k: KeyView| #[trigger]
        leaves(input, k) && departure_finding(input, input.state[k]) == Some(f) {
        let k = choose|k: KeyView| #[trigger]
            leaves(input, k) && departure_finding(input, input.state[k]) == Some(f);
        assert(input.state.contains_key(k));
        assert(records.contains(k));
    }
    if exists|k: KeyView| #[trigger]
        records.contains(k) && leaves(input, k) && departure_finding(input, input.state[k]) == Some(
            f,
        ) {
        let k = choose|k: KeyView| #[trigger]
            records.contains(k) && leaves(input, k) && departure_finding(input, input.state[k])
                == Some(f);
        assert(leaves(input, k));
    }
    if exists|k: KeyView| #[trigger]
        keys.contains(k) && member_actions(input, accepted(input)[k]).contains(action) {
        let k = choose|k: KeyView| #[trigger]
            keys.contains(k) && member_actions(input, accepted(input)[k]).contains(action);
        assert(accepted(input).contains_key(k));
    }
    if exists|k: KeyView| #[trigger]
        accepted(input).contains_key(k) && member_actions(input, accepted(input)[k]).contains(
            action,
        ) {
        let k = choose|k: KeyView| #[trigger]
            accepted(input).contains_key(k) && member_actions(input, accepted(input)[k]).contains(
                action,
            );
        assert(keys.contains(k));
    }
    if exists|k: KeyView| #[trigger]
        keys.contains(k) && member_finding(input, accepted(input)[k]) == Some(f) {
        let k = choose|k: KeyView| #[trigger]
            keys.contains(k) && member_finding(input, accepted(input)[k]) == Some(f);
        assert(accepted(input).contains_key(k));
    }
    if exists|k: KeyView| #[trigger]
        accepted(input).contains_key(k) && member_finding(input, accepted(input)[k]) == Some(f) {
        let k = choose|k: KeyView| #[trigger]
            accepted(input).contains_key(k) && member_finding(input, accepted(input)[k]) == Some(
                f,
            );
        assert(keys.contains(k));
    }
}

// Who is accepted.

/// Whether a desired mount is of a group that is not frozen, and no other such
/// mount has its target or its key.
pub open spec fn is_alone(input: InputView, i: int) -> bool {
    &&& 0 <= i < input.desired.len()
    &&& !input.frozen.contains(input.desired[i].key.group)
    &&& forall|j: int|
        0 <= j < input.desired.len() && j != i && !input.frozen.contains(
            (#[trigger] input.desired[j]).key.group,
        ) ==> input.desired[j].target != input.desired[i].target && input.desired[j].key
            != input.desired[i].key
}

proof fn lemma_wanted_alone(input: InputView, i: int, n: int)
    requires
        is_alone(input, i),
        0 <= n <= input.desired.len(),
    ensures
        ({
            let d = input.desired[i];
            let head = input.desired.take(n);
            &&& wanted_at(head, input.frozen, d.target) == (if i < n {
                seq![d]
            } else {
                seq![]
            })
            &&& i < n ==> wanted_targets(head, input.frozen).contains(d.target)
            &&& wanted_targets(head, input.frozen).finite()
        }),
    decreases n,
{
    let d = input.desired[i];
    let head = input.desired.take(n);
    if n > 0 {
        lemma_wanted_alone(input, i, n - 1);
        assert(head.drop_last() =~= input.desired.take(n - 1));
        assert(head.last() == input.desired[n - 1]);
        assert(seq![d] =~= Seq::<DesiredView>::empty().push(d));
    }
}

proof fn lemma_accepted_alone(input: InputView, i: int, targets: Seq<LocationView>)
    requires
        is_alone(input, i),
        wanted_at(input.desired, input.frozen, input.desired[i].target) == seq![input.desired[i]],
    ensures
        ({
            let d = input.desired[i];
            let all = accepted_over(input, targets);
            &&& targets.contains(d.target) ==> all.contains_key(d.key)
            &&& all.contains_key(d.key) ==> all[d.key] == d
        }),
    decreases targets.len(),
{
    if targets.len() > 0 {
        let front = targets.drop_last();
        let last = targets.last();
        let d = input.desired[i];
        lemma_accepted_alone(input, i, front);
        lemma_admitted(input, last);
        if last == d.target {
            assert(admitted(input, last) == Some(d));
        } else {
            if admitted(input, last) is Some {
                let e = admitted(input, last)->0;
                let j = choose|j: int|
                    0 <= j < input.desired.len() && #[trigger] input.desired[j] == e;
                assert(e.key != d.key);
            }
            if targets.contains(d.target) {
                let k = choose|k: int| 0 <= k < targets.len() && targets[k] == d.target;
                assert(front[k] == d.target);
            }
        }
    }
}

/// A desired mount that contends with no other for its target is accepted.
pub proof fn law_uncontended_members_are_accepted(input: InputView, i: int)
    requires
        is_alone(input, i),
    ensures
        accepted(input).contains_key(input.desired[i].key),
        accepted(input)[input.desired[i].key] == input.desired[i],
{
    let d = input.desired[i];
    lemma_wanted_alone(input, i, input.desired.len() as int);
    assert(input.desired.take(input.desired.len() as int) =~= input.desired);
    let wanted = wanted_targets(input.desired, input.frozen);
    crate::order::lemma_in_order_finite::<Location>(wanted);
    assert(targets_in_order(input).to_set().contains(d.target));
    lemma_accepted_alone(input, i, targets_in_order(input));
}

// The table, for a member that contends with no other.

/// A new member is mounted, if its source resolves and nothing is mounted at
/// its target; a mount of somebody else there is a conflict, and nothing is
/// done.
pub proof fn law_new_members_are_mounted(input: InputView, i: int)
    requires
        plannable(input),
        is_alone(input, i),
        !input.state.contains_key(input.desired[i].key),
    ensures
        ({
            let d = input.desired[i];
            let plan = planned(input);
            &&& input.target(d.target) is NotMounted && input.source(d.key) is Resolved ==> takes(
                plan,
                ActionView::Mount { desired: d },
            )
            &&& input.target(d.target) is NotMounted ==> (input.source(
                d.key,
            ) matches SourceView::Unavailable(reason) ==> plan.findings.contains(
                FindingView::SourceUnavailable { key: d.key, source: d.source, reason },
            ))
            &&& input.target(d.target) is Mounted && !is_vacated(input, d.target)
                ==> plan.findings.contains(
                FindingView::Conflict {
                    key: d.key,
                    target: d.target,
                    kind: ConflictKind::ForeignMount,
                },
            ) && !takes(plan, ActionView::Mount { desired: d })
        }),
{
    let d = input.desired[i];
    let mount = ActionView::Mount { desired: d };
    law_uncontended_members_are_accepted(input, i);
    law_plan_takes_what_is_due(input, mount);
    assert(accepted(input).contains_key(d.key));
    if input.target(d.target) is NotMounted && input.source(d.key) is Resolved {
        assert(member_actions(input, d)[0] == mount);
    }
    if member_finding(input, d) is Some {
        law_plan_reports_what_is_due(input, member_finding(input, d)->0);
    }
    if input.target(d.target) is Mounted && !is_vacated(input, d.target) && takes(
        planned(input),
        mount,
    ) {
        let k = choose|k: KeyView| #[trigger]
            accepted(input).contains_key(k) && member_actions(input, accepted(input)[k]).contains(
                mount,
            );
        lemma_mounts_own(input, accepted(input)[k], mount);
        lemma_accepted(input, k);
        assert(member_actions(input, d).len() == 0);
    }
}

proof fn lemma_mounts_own(input: InputView, d: DesiredView, action: ActionView)
    requires
        member_actions(input, d).contains(action),
        action is Mount,
    ensures
        action == (ActionView::Mount { desired: d }),
{
    let i = choose|i: int|
        0 <= i < member_actions(input, d).len() && member_actions(input, d)[i] == action;
    assert(member_actions(input, d)[i] == action);
}

/// A mount whose member left is unmounted: its record is not wanted, and the
/// mount it names is at its target.
pub proof fn law_members_that_left_are_unmounted(input: InputView, key: KeyView)
    requires
        plannable(input),
        input.state.contains_key(key),
        !input.frozen.contains(key.group),
        forall|i: int| 0 <= i < input.desired.len() ==> (#[trigger] input.desired[i]).key != key,
    ensures
        ({
            let record = input.state[key];
            let plan = planned(input);
            match input.target(record.target_location()) {
                TargetView::NotMounted => takes(
                    plan,
                    ActionView::DropRecord { record, reason: DropReasonView::MountGone },
                ),
                TargetView::Mounted { identity, attrs } => if is_recorded_mount(
                    identity,
                    record.identity,
                ) {
                    takes(
                        plan,
                        ActionView::Unmount { record, reason: UnmountReasonView::NotMember },
                    )
                } else {
                    takes(
                        plan,
                        ActionView::DropRecord {
                            record,
                            reason: DropReasonView::ForeignMountAtTarget,
                        },
                    )
                },
                TargetView::Unavailable(reason) => plan.findings.contains(
                    FindingView::TargetUnavailable {
                        key,
                        target: record.target_location(),
                        reason,
                    },
                ),
            }
        }),
{
    let record = input.state[key];
    assert(record.key() == key);
    assert(!accepted(input).contains_key(key)) by {
        if accepted(input).contains_key(key) {
            lemma_accepted(input, key);
        }
    }
    assert(leaves(input, key));
    if departure_action(input, record) is Some {
        law_plan_takes_what_is_due(input, departure_action(input, record)->0);
    }
    if departure_finding(input, record) is Some {
        law_plan_reports_what_is_due(input, departure_finding(input, record)->0);
    }
}

/// A member that is mounted as recorded stays mounted, unless its source is
/// gone or was replaced, or the mount was made under other attributes; a mount
/// of somebody else in its place is a conflict, and the record is kept.
pub proof fn law_recorded_members_follow_their_source(input: InputView, i: int)
    requires
        plannable(input),
        is_alone(input, i),
        is_recorded(input, input.desired[i]),
    ensures
        ({
            let d = input.desired[i];
            let record = input.state[d.key];
            let plan = planned(input);
            let actions = recorded_actions(input, d, record);
            &&& forall|a: ActionView|
                a.key() == d.key ==> (#[trigger] takes(plan, a) <==> actions.contains(a))
            &&& settled(input, d) ==> actions.len() == 0
        }),
{
    let d = input.desired[i];
    let record = input.state[d.key];
    let plan = planned(input);
    let actions = recorded_actions(input, d, record);
    law_uncontended_members_are_accepted(input, i);
    assert(record.key() == d.key);
    assert forall|a: ActionView| a.key() == d.key implies (#[trigger] takes(plan, a)
        <==> actions.contains(a)) by {
        law_plan_takes_what_is_due(input, a);
        assert(accepted(input).contains_key(d.key));
        if takes(plan, a) && !actions.contains(a) {
            if exists|k: KeyView| #[trigger]
                leaves(input, k) && departure_action(input, input.state[k]) == Some(a) {
                let k = choose|k: KeyView| #[trigger]
                    leaves(input, k) && departure_action(input, input.state[k]) == Some(a);
                assert(input.state.contains_key(k));
                assert(input.state[k].key() == k);
                assert(a.key() == k);
            } else {
                let k = choose|k: KeyView| #[trigger]
                    accepted(input).contains_key(k) && member_actions(
                        input,
                        accepted(input)[k],
                    ).contains(a);
                lemma_accepted(input, k);
                lemma_actions_own(input, accepted(input)[k], a);
            }
        }
    }
}

proof fn lemma_actions_own(input: InputView, d: DesiredView, action: ActionView)
    requires
        keyed(input.state),
        member_actions(input, d).contains(action),
    ensures
        action.key() == d.key,
{
    let i = choose|i: int|
        0 <= i < member_actions(input, d).len() && member_actions(input, d)[i] == action;
    assert(member_actions(input, d)[i] == action);
    if is_recorded(input, d) {
        assert(input.state[d.key].key() == d.key);
    }
}

} // verus!
