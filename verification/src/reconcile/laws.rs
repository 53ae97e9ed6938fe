//! What holds of every plan.
use vstd::prelude::*;

use crate::identity::is_recorded_mount;
use crate::name::GroupIdView;
use crate::order::{in_order, Key};
use crate::reconcile::decision::{accepted, accepted_over, admitted, by_key, contenders, decide_mount, decide_over, decide_recorded, decide_unrecorded, decided, depart_one, depart_over, departed, departs, execution_order, first_holder, freed_by, insert_by_key, insert_number, is_recorded_at, lacks_attrs, of_phase, planned, positions, relaxed, remount, targets_in_order, tightened, wanted_at, Departed, Draft, DraftStep, InputView};
use crate::reconcile::plan::{enforces, ActionView, DesiredView, LocationView, SourceView, TargetView};
use crate::state::{keyed, KeyView, RecordKey, RecordView};

verus! {

// Accepted members.

/// Whether a desired mount of a group that is not frozen is among those given.
pub open spec fn is_desired(input: InputView, d: DesiredView) -> bool {
    &&& !input.frozen.contains(d.key.group)
    &&& exists|i: int| 0 <= i < input.desired.len() && #[trigger] input.desired[i] == d
}

proof fn lemma_wanted_at(
    desired: Seq<DesiredView>,
    frozen: Set<GroupIdView>,
    target: LocationView,
    k: int,
)
    requires
        0 <= k < wanted_at(desired, frozen, target).len(),
    ensures
        ({
            let d = wanted_at(desired, frozen, target)[k];
            &&& d.target == target
            &&& !frozen.contains(d.key.group)
            &&& exists|i: int| 0 <= i < desired.len() && #[trigger] desired[i] == d
        }),
    decreases desired.len(),
{
    let all = wanted_at(desired, frozen, target);
    let front = wanted_at(desired.drop_last(), frozen, target);
    if k < front.len() {
        lemma_wanted_at(desired.drop_last(), frozen, target, k);
        assert(all[k] == front[k]);
        let i = choose|i: int|
            0 <= i < desired.drop_last().len() && #[trigger] desired.drop_last()[i] == front[k];
        assert(desired[i] == all[k]);
    } else {
        assert(desired[desired.len() - 1] == all[k]);
    }
}

proof fn lemma_insert_by_key_within(members: Seq<DesiredView>, d: DesiredView, k: int)
    requires
        0 <= k < insert_by_key(members, d).len(),
    ensures
        insert_by_key(members, d)[k] == d || members.contains(insert_by_key(members, d)[k]),
    decreases members.len(),
{
    let all = insert_by_key(members, d);
    if members.len() > 0 && RecordKey::before(d.key, members.last().key) {
        let front = insert_by_key(members.drop_last(), d);
        if k < front.len() {
            lemma_insert_by_key_within(members.drop_last(), d, k);
            if members.drop_last().contains(front[k]) {
                let i = choose|i: int|
                    0 <= i < members.drop_last().len() && members.drop_last()[i] == front[k];
                assert(members[i] == all[k]);
            }
        } else {
            assert(all[k] == members[members.len() - 1]);
        }
    } else if k < members.len() {
        assert(all[k] == members[k]);
    }
}

proof fn lemma_by_key_within(members: Seq<DesiredView>, k: int)
    requires
        0 <= k < by_key(members).len(),
    ensures
        members.contains(by_key(members)[k]),
    decreases members.len(),
{
    if members.len() > 0 {
        let front = by_key(members.drop_last());
        let all = by_key(members);
        lemma_insert_by_key_within(front, members.last(), k);
        if all[k] == members.last() {
            assert(members[members.len() - 1] == all[k]);
        } else {
            let j = choose|j: int| 0 <= j < front.len() && front[j] == all[k];
            lemma_by_key_within(members.drop_last(), j);
            let i = choose|i: int|
                0 <= i < members.drop_last().len() && members.drop_last()[i] == all[k];
            assert(members[i] == all[k]);
        }
    }
}

proof fn lemma_first_holder_within(input: InputView, members: Seq<DesiredView>)
    ensures
        first_holder(input, members) matches Some(d) ==> members.contains(d),
    decreases members.len(),
{
    if members.len() > 0 {
        lemma_first_holder_within(input, members.drop_last());
        if first_holder(input, members) is Some {
            let d = first_holder(input, members)->0;
            if first_holder(input, members.drop_last()) is Some {
                let i = choose|i: int|
                    0 <= i < members.drop_last().len() && members.drop_last()[i] == d;
                assert(members[i] == d);
            } else {
                assert(members[members.len() - 1] == d);
            }
        }
    }
}

/// Whoever contends for a target is desired, and wants it.
pub proof fn lemma_contenders(input: InputView, target: LocationView, k: int)
    requires
        0 <= k < contenders(input, target).len(),
    ensures
        contenders(input, target)[k].target == target,
        is_desired(input, contenders(input, target)[k]),
{
    let members = wanted_at(input.desired, input.frozen, target);
    let d = contenders(input, target)[k];
    lemma_by_key_within(members, k);
    let j = choose|j: int| 0 <= j < members.len() && members[j] == d;
    lemma_wanted_at(input.desired, input.frozen, target, j);
}

/// The member admitted to a target is desired, and wants it.
pub proof fn lemma_admitted(input: InputView, target: LocationView)
    ensures
        admitted(input, target) matches Some(d) ==> d.target == target && is_desired(input, d),
{
    let members = wanted_at(input.desired, input.frozen, target);
    if admitted(input, target) is Some {
        let d = admitted(input, target)->0;
        if members.len() == 1 {
            lemma_wanted_at(input.desired, input.frozen, target, 0);
        } else {
            let sorted = by_key(members);
            lemma_first_holder_within(input, sorted);
            let k = choose|k: int| 0 <= k < sorted.len() && sorted[k] == d;
            lemma_contenders(input, target, k);
        }
    }
}

proof fn lemma_accepted_over(input: InputView, targets: Seq<LocationView>)
    ensures
        forall|k: KeyView| #[trigger]
            accepted_over(input, targets).contains_key(k) ==> {
                let d = accepted_over(input, targets)[k];
                &&& d.key == k
                &&& is_desired(input, d)
                &&& admitted(input, d.target) == Some(d)
            },
    decreases targets.len(),
{
    if targets.len() > 0 {
        lemma_accepted_over(input, targets.drop_last());
        lemma_admitted(input, targets.last());
    }
}

/// Every accepted member is a desired one, under its own key, and the only
/// one admitted to its target.
pub proof fn lemma_accepted(input: InputView, k: KeyView)
    requires
        accepted(input).contains_key(k),
    ensures
        accepted(input)[k].key == k,
        is_desired(input, accepted(input)[k]),
        admitted(input, accepted(input)[k].target) == Some(accepted(input)[k]),
{
    lemma_accepted_over(input, targets_in_order(input));
}

// Drafts.

/// What holds of an action on its own.
pub open spec fn sound_action(input: InputView, action: ActionView) -> bool {
    match action {
        ActionView::Unmount { record, reason } => {
            &&& input.state.contains_key(record.key())
            &&& input.state[record.key()] == record
            &&& !input.frozen.contains(record.group)
            &&& input.is_mounted(record)
        },
        ActionView::DropRecord { record, reason } => {
            &&& input.state.contains_key(record.key())
            &&& input.state[record.key()] == record
            &&& !input.frozen.contains(record.group)
            &&& !input.is_mounted(record)
            &&& !(input.target(record.target_location()) is Unavailable)
        },
        ActionView::Reattr { record, attrs } => {
            &&& input.state.contains_key(record.key())
            &&& input.state[record.key()] == record
            &&& !input.frozen.contains(record.group)
            &&& input.is_mounted(record)
        },
        ActionView::Mount { desired } => {
            &&& is_desired(input, desired)
            &&& accepted(input).contains_key(desired.key)
            &&& accepted(input)[desired.key] == desired
            &&& input.source(desired.key) is Resolved
        },
    }
}

/// Whether the step removes the mount that is observed at the target.
pub open spec fn frees(action: ActionView, target: LocationView) -> bool {
    action matches ActionView::Unmount { record, reason } && record.target_location() == target
}

/// What holds of the draft step at `i`.
pub open spec fn sound_step(input: InputView, steps: Seq<DraftStep>, i: int) -> bool {
    let step = steps[i];
    &&& sound_action(input, step.action)
    &&& forall|j: int|
        0 <= j < step.needs.len() ==> (#[trigger] step.needs[j]) < i
            && steps[step.needs[j] as int].action.phase() == 0
    &&& step.action matches ActionView::Mount { desired } ==> match input.target(desired.target) {
        TargetView::NotMounted => true,
        TargetView::Mounted { identity, attrs } => exists|j: int|
            0 <= j < step.needs.len() && frees(
                steps[#[trigger] step.needs[j] as int].action,
                desired.target,
            ),
        TargetView::Unavailable(_) => false,
    }
}

/// What holds of every step of a draft.
pub open spec fn sound_draft(input: InputView, steps: Seq<DraftStep>) -> bool {
    forall|i: int| 0 <= i < steps.len() ==> #[trigger] sound_step(input, steps, i)
}

proof fn lemma_sound_act(input: InputView, draft: Draft, action: ActionView, needs: Seq<usize>)
    requires
        sound_draft(input, draft.steps),
        sound_step(input, draft.act(action, needs).steps, draft.steps.len() as int),
    ensures
        sound_draft(input, draft.act(action, needs).steps),
{
    let all = draft.act(action, needs).steps;
    assert forall|i: int| 0 <= i < all.len() implies #[trigger] sound_step(input, all, i) by {
        if i < draft.steps.len() {
            assert(sound_step(input, draft.steps, i));
            let step = draft.steps[i];
            assert(all[i] == step);
            assert forall|j: int| 0 <= j < step.needs.len() implies (#[trigger] step.needs[j]) < i
                && all[step.needs[j] as int].action.phase() == 0 by {
                assert(all[step.needs[j] as int] == draft.steps[step.needs[j] as int]);
            }
            if step.action is Mount {
                let target = step.action->desired.target;
                if input.target(target) is Mounted {
                    let j = choose|j: int|
                        0 <= j < step.needs.len() && frees(
                            draft.steps[#[trigger] step.needs[j] as int].action,
                            target,
                        );
                    assert(all[step.needs[j] as int] == draft.steps[step.needs[j] as int]);
                    assert(frees(all[step.needs[j] as int].action, target));
                }
            }
        }
    }
}

/// What holds of what the departing records leave behind.
pub open spec fn sound_departed(input: InputView, d: Departed) -> bool {
    &&& sound_draft(input, d.draft.steps)
    &&& forall|i: int| 0 <= i < d.draft.steps.len() ==> (#[trigger] d.draft.steps[i]).action.phase() == 0
    &&& forall|k: KeyView| #[trigger]
        d.removals.contains_key(k) ==> match d.removals[k] {
            Some(id) => id < d.draft.steps.len() && d.draft.steps[id as int].action.key() == k,
            None => input.state.contains_key(k),
        }
    &&& forall|l: LocationView| #[trigger]
        d.freed.contains_key(l) ==> d.freed[l].0 < d.draft.steps.len() && frees(
            d.draft.steps[d.freed[l].0 as int].action,
            l,
        )
}

proof fn lemma_depart_one(input: InputView, d: Departed, record: RecordView)
    requires
        keyed(input.state),
        input.state.contains_key(record.key()),
        input.state[record.key()] == record,
        !input.frozen.contains(record.group),
        sound_departed(input, d),
        depart_one(input, d, record).draft.steps.len() <= usize::MAX,
    ensures
        sound_departed(input, depart_one(input, d, record)),
{
    let key = record.key();
    let after = depart_one(input, d, record);
    let location = record.target_location();
    let n = d.draft.steps.len() as int;
    match input.target(location) {
        TargetView::Unavailable(_) => {
            assert(after.draft.steps == d.draft.steps);
        },
        _ => {
            let step = after.draft.steps[n];
            assert(sound_step(input, after.draft.steps, n));
            lemma_sound_act(input, d.draft, step.action, step.needs);
            assert(after.draft.steps =~= d.draft.act(step.action, step.needs).steps);
            assert forall|i: int| 0 <= i < after.draft.steps.len() implies (
            #[trigger] after.draft.steps[i]).action.phase() == 0 by {
                if i < n {
                    assert(after.draft.steps[i] == d.draft.steps[i]);
                }
            }
            assert forall|k: KeyView| #[trigger] after.removals.contains_key(k) implies match after.removals[k] {
                Some(id) => id < after.draft.steps.len() && after.draft.steps[id as int].action.key()
                    == k,
                None => input.state.contains_key(k),
            } by {
                if k != key {
                    assert(d.removals.contains_key(k));
                }
            }
            assert forall|l: LocationView| #[trigger]
                after.freed.contains_key(l) implies after.freed[l].0 < after.draft.steps.len()
                && frees(after.draft.steps[after.freed[l].0 as int].action, l) by {
                if !(l == location && input.is_mounted(record)) {
                    assert(d.freed.contains_key(l));
                }
            }
        },
    }
}

proof fn lemma_depart_over(input: InputView, keys: Seq<KeyView>)
    requires
        keyed(input.state),
        forall|i: int| 0 <= i < keys.len() ==> input.state.contains_key(#[trigger] keys[i]),
        depart_over(input, keys).draft.steps.len() <= usize::MAX,
    ensures
        sound_departed(input, depart_over(input, keys)),
    decreases keys.len(),
{
    if keys.len() > 0 {
        let front = keys.drop_last();
        assert forall|i: int| 0 <= i < front.len() implies input.state.contains_key(
            #[trigger] front[i],
        ) by {
            assert(front[i] == keys[i]);
        }
        lemma_depart_over(input, front);
        let record = input.state[keys.last()];
        assert(input.state.contains_key(keys[keys.len() - 1]));
        if departs(input, record) {
            lemma_depart_one(input, depart_over(input, front), record);
        }
    }
}

/// An input as the planner gets it: every record stands under its own key,
/// and there are no more decisions than the machine can count.
pub open spec fn plannable(input: InputView) -> bool {
    &&& keyed(input.state)
    &&& input.state.dom().finite()
    &&& decided(input).steps.len() <= usize::MAX
}

proof fn lemma_accepted_finite(input: InputView, targets: Seq<LocationView>)
    ensures
        accepted_over(input, targets).dom().finite(),
    decreases targets.len(),
{
    if targets.len() > 0 {
        lemma_accepted_finite(input, targets.drop_last());
        let front = accepted_over(input, targets.drop_last());
        if admitted(input, targets.last()) is Some {
            let d = admitted(input, targets.last())->0;
            assert(front.insert(d.key, d).dom() =~= front.dom().insert(d.key));
        }
    }
}

/// The keys of the accepted members in order are exactly those keys.
pub proof fn lemma_accepted_keys(input: InputView)
    ensures
        crate::order::ascending::<RecordKey>(in_order::<RecordKey>(accepted(input).dom())),
        in_order::<RecordKey>(accepted(input).dom()).to_set() == accepted(input).dom(),
{
    lemma_accepted_finite(input, targets_in_order(input));
    crate::order::lemma_in_order_finite::<RecordKey>(accepted(input).dom());
}

proof fn lemma_draft_grows(input: InputView, keys: Seq<KeyView>)
    ensures
        departed(input).draft.steps.len() <= decide_over(input, keys).steps.len(),
    decreases keys.len(),
{
    if keys.len() > 0 {
        lemma_draft_grows(input, keys.drop_last());
    }
}

proof fn lemma_departed(input: InputView)
    requires
        keyed(input.state),
        input.state.dom().finite(),
        departed(input).draft.steps.len() <= usize::MAX,
    ensures
        sound_departed(input, departed(input)),
{
    let keys = in_order::<RecordKey>(input.state.dom());
    crate::order::lemma_in_order_finite::<RecordKey>(input.state.dom());
    assert forall|i: int| 0 <= i < keys.len() implies input.state.contains_key(
        #[trigger] keys[i],
    ) by {
        assert(keys.to_set().contains(keys[i]));
    }
    lemma_depart_over(input, keys);
}

/// The earlier steps of a draft stand where they stood.
spec fn extends(before: Seq<DraftStep>, after: Seq<DraftStep>) -> bool {
    before.len() <= after.len() && forall|i: int| 0 <= i < before.len() ==> after[i] == #[trigger] before[i]
}

proof fn lemma_sound_mount(input: InputView, draft: Draft, d: DesiredView, needs: Seq<usize>)
    requires
        sound_draft(input, draft.steps),
        accepted(input).contains_key(d.key),
        accepted(input)[d.key] == d,
        is_desired(input, d),
        forall|j: int|
            0 <= j < needs.len() ==> (#[trigger] needs[j]) < draft.steps.len()
                && draft.steps[needs[j] as int].action.phase() == 0,
        match input.target(d.target) {
            TargetView::NotMounted => true,
            TargetView::Mounted { identity, attrs } => exists|j: int|
                0 <= j < needs.len() && frees(
                    draft.steps[#[trigger] needs[j] as int].action,
                    d.target,
                ),
            TargetView::Unavailable(_) => false,
        },
    ensures
        sound_draft(input, decide_mount(input, draft, d, needs).steps),
{
    if input.source(d.key) is Resolved {
        let action = ActionView::Mount { desired: d };
        let all = draft.act(action, needs).steps;
        let n = draft.steps.len() as int;
        assert forall|j: int| 0 <= j < needs.len() implies (#[trigger] needs[j]) < n
            && all[needs[j] as int].action.phase() == 0 by {
            assert(all[needs[j] as int] == draft.steps[needs[j] as int]);
        }
        if input.target(d.target) is Mounted {
            let j = choose|j: int|
                0 <= j < needs.len() && frees(
                    draft.steps[#[trigger] needs[j] as int].action,
                    d.target,
                );
            assert(all[needs[j] as int] == draft.steps[needs[j] as int]);
            assert(frees(all[needs[j] as int].action, d.target));
        }
        assert(sound_step(input, all, n));
        lemma_sound_act(input, draft, action, needs);
    }
}

proof fn lemma_sound_unrecorded(input: InputView, gone: Departed, draft: Draft, d: DesiredView)
    requires
        sound_draft(input, draft.steps),
        sound_departed(input, gone),
        extends(gone.draft.steps, draft.steps),
        accepted(input).contains_key(d.key),
        accepted(input)[d.key] == d,
        is_desired(input, d),
    ensures
        sound_draft(input, decide_unrecorded(input, gone, draft, d).steps),
        extends(draft.steps, decide_unrecorded(input, gone, draft, d).steps),
{
    let removal = if gone.removals.contains_key(d.key) {
        Some(gone.removals[d.key])
    } else {
        None
    };
    if removal != Some(None::<usize>) {
        let first: Seq<usize> = match removal {
            Some(Some(id)) => seq![id],
            _ => Seq::empty(),
        };
        assert forall|j: int| 0 <= j < first.len() implies (#[trigger] first[j]) < draft.steps.len()
            && draft.steps[first[j] as int].action.phase() == 0 by {
            let id = first[j] as int;
            assert(gone.draft.steps[id].action.phase() == 0);
            assert(draft.steps[id] == gone.draft.steps[id]);
        }
        match input.target(d.target) {
            TargetView::NotMounted => {
                lemma_sound_mount(input, draft, d, first);
            },
            TargetView::Mounted { identity, attrs } => {
                if freed_by(gone, d.target, identity) is Some {
                    let id = gone.freed[d.target].0;
                    assert(gone.freed.contains_key(d.target));
                    assert(gone.draft.steps[id as int].action.phase() == 0);
                    assert(draft.steps[id as int] == gone.draft.steps[id as int]);
                    let needs = first.push(id);
                    assert(needs[first.len() as int] == id);
                    assert(frees(draft.steps[needs[first.len() as int] as int].action, d.target));
                    assert forall|j: int| 0 <= j < needs.len() implies (#[trigger] needs[j])
                        < draft.steps.len() && draft.steps[needs[j] as int].action.phase() == 0 by {
                        if j < first.len() {
                            assert(needs[j] == first[j]);
                        }
                    }
                    lemma_sound_mount(input, draft, d, needs);
                }
            },
            TargetView::Unavailable(_) => {},
        }
    }
}

proof fn lemma_sound_remount(
    input: InputView,
    draft: Draft,
    record: RecordView,
    reason: crate::reconcile::plan::UnmountReasonView,
    d: DesiredView,
)
    requires
        sound_draft(input, draft.steps),
        sound_action(input, ActionView::Unmount { record, reason }),
        sound_action(input, ActionView::Mount { desired: d }),
        record.target_location() == d.target,
        remount(draft, record, reason, d).steps.len() <= usize::MAX,
    ensures
        sound_draft(input, remount(draft, record, reason, d).steps),
        extends(draft.steps, remount(draft, record, reason, d).steps),
{
    let n = draft.steps.len() as int;
    let one = draft.act(ActionView::Unmount { record, reason }, Seq::empty());
    assert(sound_step(input, one.steps, n));
    lemma_sound_act(input, draft, ActionView::Unmount { record, reason }, Seq::empty());
    let needs = seq![n as usize];
    let two = one.act(ActionView::Mount { desired: d }, needs);
    assert(needs[0] == n);
    assert(two.steps[n] == one.steps[n]);
    assert(two.steps[n + 1].needs == needs);
    assert(frees(two.steps[two.steps[n + 1].needs[0] as int].action, d.target));
    assert(sound_step(input, two.steps, n + 1));
    lemma_sound_act(input, one, ActionView::Mount { desired: d }, needs);
}

proof fn lemma_sound_recorded(input: InputView, draft: Draft, d: DesiredView, record: RecordView)
    requires
        keyed(input.state),
        sound_draft(input, draft.steps),
        accepted(input).contains_key(d.key),
        accepted(input)[d.key] == d,
        is_desired(input, d),
        input.state.contains_key(d.key),
        input.state[d.key] == record,
        is_recorded_at(record, d),
        decide_recorded(input, draft, d, record).steps.len() <= usize::MAX,
    ensures
        sound_draft(input, decide_recorded(input, draft, d, record).steps),
        extends(draft.steps, decide_recorded(input, draft, d, record).steps),
{
    let after = decide_recorded(input, draft, d, record);
    let n = draft.steps.len() as int;
    assert(record.key() == d.key);
    match input.target(d.target) {
        TargetView::Mounted { identity, attrs } => {
            if is_recorded_mount(identity, record.identity) {
                assert(input.is_mounted(record));
                match input.source(d.key) {
                    SourceView::Resolved(root) => {
                        if root == record.identity.root {
                            if relaxed(record, d.attrs) {
                                lemma_sound_remount(
                                    input,
                                    draft,
                                    record,
                                    crate::reconcile::plan::UnmountReasonView::AttributesRelaxed,
                                    d,
                                );
                            } else if lacks_attrs(attrs, d.attrs) {
                                assert(sound_step(input, after.steps, n));
                                lemma_sound_act(
                                    input,
                                    draft,
                                    ActionView::Reattr { record, attrs: d.attrs },
                                    Seq::empty(),
                                );
                            } else if tightened(record, d.attrs) {
                                lemma_sound_remount(
                                    input,
                                    draft,
                                    record,
                                    crate::reconcile::plan::UnmountReasonView::AttributesChanged,
                                    d,
                                );
                            }
                        } else {
                            lemma_sound_remount(
                                input,
                                draft,
                                record,
                                crate::reconcile::plan::UnmountReasonView::SourceChanged,
                                d,
                            );
                        }
                    },
                    SourceView::Unavailable(reason) => {
                        assert(sound_step(input, after.steps, n));
                        lemma_sound_act(input, draft, after.steps[n].action, Seq::empty());
                    },
                }
            }
        },
        TargetView::NotMounted => {
            assert(sound_step(input, after.steps, n));
            lemma_sound_act(input, draft, after.steps[n].action, Seq::empty());
        },
        TargetView::Unavailable(_) => {},
    }
}

proof fn lemma_decide_over(input: InputView, keys: Seq<KeyView>)
    requires
        keyed(input.state),
        input.state.dom().finite(),
        forall|i: int| 0 <= i < keys.len() ==> accepted(input).contains_key(#[trigger] keys[i]),
        decide_over(input, keys).steps.len() <= usize::MAX,
    ensures
        sound_draft(input, decide_over(input, keys).steps),
        extends(departed(input).draft.steps, decide_over(input, keys).steps),
    decreases keys.len(),
{
    lemma_draft_grows(input, keys);
    lemma_departed(input);
    if keys.len() > 0 {
        let front = keys.drop_last();
        assert forall|i: int| 0 <= i < front.len() implies accepted(input).contains_key(
            #[trigger] front[i],
        ) by {
            assert(front[i] == keys[i]);
        }
        lemma_decide_over(input, front);
        let draft = decide_over(input, front);
        assert(accepted(input).contains_key(keys[keys.len() - 1]));
        let d = accepted(input)[keys.last()];
        lemma_accepted(input, keys.last());
        if input.state.contains_key(d.key) && is_recorded_at(input.state[d.key], d) {
            lemma_sound_recorded(input, draft, d, input.state[d.key]);
        } else {
            lemma_sound_unrecorded(input, departed(input), draft, d);
        }
        let after = decide_over(input, keys).steps;
        assert forall|i: int| 0 <= i < departed(input).draft.steps.len() implies after[i]
            == #[trigger] departed(input).draft.steps[i] by {
            assert(draft.steps[i] == departed(input).draft.steps[i]);
            assert(after[i] == draft.steps[i]);
        }
    }
}

/// Everything that is decided is sound.
pub proof fn lemma_decided(input: InputView)
    requires
        plannable(input),
    ensures
        sound_draft(input, decided(input).steps),
{
    lemma_accepted_keys(input);
    let keys = in_order::<RecordKey>(accepted(input).dom());
    assert forall|i: int| 0 <= i < keys.len() implies accepted(input).contains_key(
        #[trigger] keys[i],
    ) by {
        assert(keys.to_set().contains(keys[i]));
    }
    lemma_decide_over(input, keys);
}

// The order of execution.

proof fn lemma_of_phase(steps: Seq<DraftStep>, phase: u8, n: nat)
    requires
        n <= steps.len() <= usize::MAX,
    ensures
        forall|i: int|
            0 <= i < of_phase(steps, phase, n).len() ==> (#[trigger] of_phase(steps, phase, n)[i])
                < n && steps[of_phase(steps, phase, n)[i] as int].action.phase() == phase,
        forall|i: int, j: int|
            0 <= i < j < of_phase(steps, phase, n).len() ==> #[trigger] of_phase(steps, phase, n)[i]
                < #[trigger] of_phase(steps, phase, n)[j],
        forall|id: int|
            0 <= id < n && (#[trigger] steps[id]).action.phase() == phase ==> of_phase(
                steps,
                phase,
                n,
            ).contains(id as usize),
    decreases n,
{
    if n > 0 {
        let m = (n - 1) as nat;
        lemma_of_phase(steps, phase, m);
        let front = of_phase(steps, phase, m);
        let all = of_phase(steps, phase, n);
        assert forall|id: int|
            0 <= id < n && (#[trigger] steps[id]).action.phase() == phase implies all.contains(
            id as usize,
        ) by {
            if id < m {
                let k = choose|k: int| 0 <= k < front.len() && front[k] == id as usize;
                assert(all[k] == id as usize);
            } else {
                assert(all[all.len() - 1] == id as usize);
            }
        }
    }
}

proof fn lemma_of_phase_len(steps: Seq<DraftStep>, n: nat)
    requires
        n <= steps.len(),
    ensures
        of_phase(steps, 0, n).len() + of_phase(steps, 1, n).len() + of_phase(steps, 2, n).len() == n,
    decreases n,
{
    if n > 0 {
        lemma_of_phase_len(steps, (n - 1) as nat);
    }
}

/// The order of execution has every draft step once; it goes by phase, and
/// within a phase by the order of decision.
pub proof fn lemma_execution_order(steps: Seq<DraftStep>)
    requires
        steps.len() <= usize::MAX,
    ensures
        ({
            let order = execution_order(steps);
            &&& order.len() == steps.len()
            &&& order.no_duplicates()
            &&& forall|i: int| 0 <= i < order.len() ==> (#[trigger] order[i]) < steps.len()
            &&& forall|id: int| 0 <= id < steps.len() ==> order.contains(#[trigger] (id as usize))
            &&& forall|i: int, j: int|
                0 <= i < j < order.len() ==> {
                    let a = steps[#[trigger] order[i] as int].action.phase();
                    let b = steps[#[trigger] order[j] as int].action.phase();
                    a < b || (a == b && order[i] < order[j])
                }
        }),
{
    let n = steps.len();
    let p0 = of_phase(steps, 0, n);
    let p1 = of_phase(steps, 1, n);
    let p2 = of_phase(steps, 2, n);
    lemma_of_phase(steps, 0, n);
    lemma_of_phase(steps, 1, n);
    lemma_of_phase(steps, 2, n);
    lemma_of_phase_len(steps, n);
    let order = execution_order(steps);
    let a = p0.len() as int;
    let b = a + p1.len();
    assert forall|i: int| 0 <= i < order.len() implies (#[trigger] order[i]) < n && (if i < a {
        order[i] == p0[i]
    } else if i < b {
        order[i] == p1[i - a]
    } else {
        order[i] == p2[i - b]
    }) by {}
    assert forall|i: int, j: int| 0 <= i < j < order.len() implies {
        let x = steps[#[trigger] order[i] as int].action.phase();
        let y = steps[#[trigger] order[j] as int].action.phase();
        x < y || (x == y && order[i] < order[j])
    } by {
        if i < a && j < a {
            assert(p0[i] < p0[j]);
        } else if a <= i && i < b && a <= j && j < b {
            assert(p1[i - a] < p1[j - a]);
        } else if i >= b {
            assert(p2[i - b] < p2[j - b]);
        }
    }
    assert forall|id: int| 0 <= id < n implies order.contains(#[trigger] (id as usize)) by {
        let phase = steps[id].action.phase();
        if phase == 0 {
            let k = choose|k: int| 0 <= k < p0.len() && p0[k] == id as usize;
            assert(order[k] == id as usize);
        } else if phase == 1 {
            let k = choose|k: int| 0 <= k < p1.len() && p1[k] == id as usize;
            assert(order[a + k] == id as usize);
        } else {
            let k = choose|k: int| 0 <= k < p2.len() && p2[k] == id as usize;
            assert(order[b + k] == id as usize);
        }
    }
}

/// An earlier step of the first phase runs before a step that was decided
/// after it.
proof fn lemma_needed_runs_first(steps: Seq<DraftStep>, need: int, i: int)
    requires
        steps.len() <= usize::MAX,
        0 <= i < execution_order(steps).len(),
        0 <= need < execution_order(steps)[i],
        steps[need].action.phase() == 0,
    ensures
        0 <= execution_order(steps).index_of(need as usize) < i,
        execution_order(steps)[execution_order(steps).index_of(need as usize)] == need,
{
    let order = execution_order(steps);
    lemma_execution_order(steps);
    assert(order.contains(need as usize));
    let k = order.index_of(need as usize);
    assert(0 <= k < order.len() && order[k] == need as usize);
    if k > i {
        assert(steps[order[i] as int].action.phase() <= steps[order[k] as int].action.phase());
    }
}

proof fn lemma_insert_number(sorted: Seq<usize>, x: usize)
    requires
        forall|i: int, j: int| 0 <= i < j < sorted.len() ==> #[trigger] sorted[i] < #[trigger] sorted[j],
    ensures
        forall|i: int, j: int|
            0 <= i < j < insert_number(sorted, x).len() ==> #[trigger] insert_number(sorted, x)[i]
                < #[trigger] insert_number(sorted, x)[j],
        forall|y: usize| #[trigger]
            insert_number(sorted, x).contains(y) <==> y == x || sorted.contains(y),
    decreases sorted.len(),
{
    let all = insert_number(sorted, x);
    if sorted.len() > 0 && x < sorted.last() {
        let front = sorted.drop_last();
        assert forall|i: int, j: int| 0 <= i < j < front.len() implies #[trigger] front[i]
            < #[trigger] front[j] by {
            assert(sorted[i] < sorted[j]);
        }
        lemma_insert_number(front, x);
        let inner = insert_number(front, x);
        assert forall|y: usize| #[trigger] all.contains(y) <==> y == x || sorted.contains(y) by {
            if all.contains(y) {
                let k = choose|k: int| 0 <= k < all.len() && all[k] == y;
                if k < inner.len() {
                    assert(inner[k] == y);
                    assert(inner.contains(y));
                    if front.contains(y) {
                        let m = choose|m: int| 0 <= m < front.len() && front[m] == y;
                        assert(sorted[m] == y);
                    }
                } else {
                    assert(sorted[sorted.len() - 1] == y);
                }
            }
            if sorted.contains(y) {
                let m = choose|m: int| 0 <= m < sorted.len() && sorted[m] == y;
                if m < front.len() {
                    assert(front[m] == y);
                    assert(inner.contains(y));
                    let k = choose|k: int| 0 <= k < inner.len() && inner[k] == y;
                    assert(all[k] == y);
                } else {
                    assert(all[all.len() - 1] == y);
                }
            }
            if y == x {
                assert(inner.contains(y));
                let k = choose|k: int| 0 <= k < inner.len() && inner[k] == y;
                assert(all[k] == y);
            }
        }
        assert forall|i: int, j: int| 0 <= i < j < all.len() implies #[trigger] all[i]
            < #[trigger] all[j] by {
            if j < inner.len() {
                assert(inner[i] < inner[j]);
            } else {
                assert(inner.contains(inner[i]));
                assert(all[i] == inner[i]);
                if inner[i] != x {
                    let m = choose|m: int| 0 <= m < front.len() && front[m] == inner[i];
                    assert(sorted[m] < sorted[sorted.len() - 1]);
                }
            }
        }
    } else if sorted.len() > 0 && x == sorted.last() {
        assert(sorted[sorted.len() - 1] == x);
    } else {
        assert forall|y: usize| #[trigger] all.contains(y) <==> y == x || sorted.contains(y) by {
            if sorted.contains(y) {
                let m = choose|m: int| 0 <= m < sorted.len() && sorted[m] == y;
                assert(all[m] == y);
            }
            if y == x {
                assert(all[all.len() - 1] == y);
            }
            if all.contains(y) {
                let m = choose|m: int| 0 <= m < all.len() && all[m] == y;
                if m < sorted.len() {
                    assert(sorted[m] == y);
                }
            }
        }
        assert forall|i: int, j: int| 0 <= i < j < all.len() implies #[trigger] all[i]
            < #[trigger] all[j] by {
            if j < sorted.len() {
                assert(sorted[i] < sorted[j]);
            } else if sorted.len() > 0 {
                if i < sorted.len() - 1 {
                    assert(sorted[i] < sorted[sorted.len() - 1]);
                }
            }
        }
    }
}

/// The positions of the needed steps, ascending: each is of a needed step, and
/// each needed step has one.
pub proof fn lemma_positions(order: Seq<usize>, needs: Seq<usize>)
    ensures
        forall|i: int, j: int|
            0 <= i < j < positions(order, needs).len() ==> #[trigger] positions(order, needs)[i]
                < #[trigger] positions(order, needs)[j],
        forall|y: usize| #[trigger]
            positions(order, needs).contains(y) ==> exists|k: int|
                0 <= k < needs.len() && y == order.index_of(#[trigger] needs[k]) as usize,
        forall|k: int|
            0 <= k < needs.len() ==> positions(order, needs).contains(
                order.index_of(#[trigger] needs[k]) as usize,
            ),
    decreases needs.len(),
{
    if needs.len() > 0 {
        let front = needs.drop_last();
        lemma_positions(order, front);
        let x = order.index_of(needs.last()) as usize;
        let before = positions(order, front);
        let all = positions(order, needs);
        lemma_insert_number(before, x);
        assert forall|y: usize| #[trigger] all.contains(y) implies exists|k: int|
            0 <= k < needs.len() && y == order.index_of(#[trigger] needs[k]) as usize by {
            if y == x {
                assert(y == order.index_of(needs[needs.len() - 1]) as usize);
            } else {
                assert(before.contains(y));
                let k = choose|k: int|
                    0 <= k < front.len() && y == order.index_of(#[trigger] front[k]) as usize;
                assert(y == order.index_of(needs[k]) as usize);
            }
        }
        assert forall|k: int| 0 <= k < needs.len() implies all.contains(
            order.index_of(#[trigger] needs[k]) as usize,
        ) by {
            if k < front.len() {
                assert(before.contains(order.index_of(front[k]) as usize));
            }
        }
    }
}

// The laws.

/// Unmounts and record drops run first, then attributes are re-applied, then
/// mounts are made.
pub proof fn law_phases_in_order(input: InputView, i: int, j: int)
    requires
        plannable(input),
        0 <= i < j < planned(input).steps.len(),
    ensures
        planned(input).steps[i].action.phase() <= planned(input).steps[j].action.phase(),
{
    lemma_execution_order(decided(input).steps);
    let order = execution_order(decided(input).steps);
    assert(order[i] < decided(input).steps.len() && order[j] < decided(input).steps.len());
}

/// Byssus never unmounts or changes a mount unless its kernel identity, as
/// observed, matches a record Byssus wrote.
pub proof fn law_only_own_mounts_are_touched(input: InputView, i: int)
    requires
        plannable(input),
        0 <= i < planned(input).steps.len(),
    ensures
        match planned(input).steps[i].action {
            ActionView::Unmount { record, reason } => input.state.contains_key(record.key())
                && input.state[record.key()] == record && input.is_mounted(record),
            ActionView::Reattr { record, attrs } => input.state.contains_key(record.key())
                && input.state[record.key()] == record && input.is_mounted(record),
            _ => true,
        },
{
    lemma_decided(input);
    lemma_execution_order(decided(input).steps);
    let id = execution_order(decided(input).steps)[i] as int;
    assert(sound_step(input, decided(input).steps, id));
}

/// A record is only dropped where the target was inspected and the recorded
/// mount is not there.
pub proof fn law_dropped_records_are_stale(input: InputView, i: int)
    requires
        plannable(input),
        0 <= i < planned(input).steps.len(),
    ensures
        planned(input).steps[i].action matches ActionView::DropRecord { record, reason } ==> {
            &&& input.state.contains_key(record.key())
            &&& input.state[record.key()] == record
            &&& !input.is_mounted(record)
            &&& !(input.target(record.target_location()) is Unavailable)
        },
{
    lemma_decided(input);
    lemma_execution_order(decided(input).steps);
    let id = execution_order(decided(input).steps)[i] as int;
    assert(sound_step(input, decided(input).steps, id));
}

/// Records and members of frozen groups are left untouched: no step is about one.
pub proof fn law_frozen_groups_untouched(input: InputView, i: int)
    requires
        plannable(input),
        0 <= i < planned(input).steps.len(),
    ensures
        !input.frozen.contains(planned(input).steps[i].action.key().group),
{
    lemma_decided(input);
    lemma_execution_order(decided(input).steps);
    let id = execution_order(decided(input).steps)[i] as int;
    assert(sound_step(input, decided(input).steps, id));
}

/// A step depends only on unmounts and record drops, and these run before it.
pub proof fn law_dependencies_run_first(input: InputView, i: int, k: int)
    requires
        plannable(input),
        0 <= i < planned(input).steps.len(),
        0 <= k < planned(input).steps[i].depends_on.len(),
    ensures
        planned(input).steps[i].depends_on[k] < i,
        planned(input).steps[planned(input).steps[i].depends_on[k] as int].action.phase() == 0,
{
    lemma_decided(input);
    let steps = decided(input).steps;
    lemma_execution_order(steps);
    let order = execution_order(steps);
    let id = order[i] as int;
    assert(sound_step(input, steps, id));
    let deps = positions(order, steps[id].needs);
    lemma_positions(order, steps[id].needs);
    assert(deps.contains(deps[k]));
    let m = choose|m: int|
        0 <= m < steps[id].needs.len() && deps[k] == order.index_of(
            #[trigger] steps[id].needs[m],
        ) as usize;
    let need = steps[id].needs[m];
    assert(need < id);
    lemma_needed_runs_first(steps, need as int, i);
}

/// A mount is only made where a source resolves and nothing is mounted, or
/// where a step that it depends on removes the Byssus mount that is there.
pub proof fn law_mounts_cover_nothing(input: InputView, i: int)
    requires
        plannable(input),
        0 <= i < planned(input).steps.len(),
        planned(input).steps[i].action is Mount,
    ensures
        ({
            let step = planned(input).steps[i];
            let d = step.action->desired;
            &&& is_desired(input, d)
            &&& input.source(d.key) is Resolved
            &&& match input.target(d.target) {
                TargetView::NotMounted => true,
                TargetView::Mounted { identity, attrs } => exists|k: int|
                    0 <= k < step.depends_on.len() && frees(
                        planned(input).steps[#[trigger] step.depends_on[k] as int].action,
                        d.target,
                    ),
                TargetView::Unavailable(_) => false,
            }
        }),
{
    lemma_decided(input);
    let steps = decided(input).steps;
    lemma_execution_order(steps);
    let order = execution_order(steps);
    let id = order[i] as int;
    assert(sound_step(input, steps, id));
    let step = planned(input).steps[i];
    let d = step.action->desired;
    if input.target(d.target) is Mounted {
        let m = choose|m: int|
            0 <= m < steps[id].needs.len() && frees(
                steps[#[trigger] steps[id].needs[m] as int].action,
                d.target,
            );
        let need = steps[id].needs[m];
        lemma_needed_runs_first(steps, need as int, i);
        lemma_positions(order, steps[id].needs);
        let at = order.index_of(need) as usize;
        assert(step.depends_on.contains(at));
        let k = choose|k: int| 0 <= k < step.depends_on.len() && step.depends_on[k] == at;
        assert(frees(planned(input).steps[step.depends_on[k] as int].action, d.target));
    }
}

proof fn lemma_mounts_by_key(input: InputView, keys: Seq<KeyView>)
    requires
        keyed(input.state),
        keys.no_duplicates(),
        forall|i: int| 0 <= i < keys.len() ==> accepted(input).contains_key(#[trigger] keys[i]),
        forall|i: int|
            0 <= i < departed(input).draft.steps.len() ==> !((
            #[trigger] departed(input).draft.steps[i]).action is Mount),
    ensures
        forall|i: int|
            0 <= i < decide_over(input, keys).steps.len() && (
            #[trigger] decide_over(input, keys).steps[i]).action is Mount ==> keys.contains(
                decide_over(input, keys).steps[i].action.key(),
            ),
        forall|i: int, j: int|
            0 <= i < j < decide_over(input, keys).steps.len() && (
            #[trigger] decide_over(input, keys).steps[i]).action is Mount && (
            #[trigger] decide_over(input, keys).steps[j]).action is Mount ==> decide_over(
                input,
                keys,
            ).steps[i].action.key() != decide_over(input, keys).steps[j].action.key(),
    decreases keys.len(),
{
    if keys.len() > 0 {
        let front = keys.drop_last();
        let key = keys.last();
        assert forall|i: int| 0 <= i < front.len() implies accepted(input).contains_key(
            #[trigger] front[i],
        ) by {
            assert(front[i] == keys[i]);
        }
        assert(front.no_duplicates()) by {
            assert forall|i: int, j: int| 0 <= i < front.len() && 0 <= j < front.len() && i != j implies front[i]
                != front[j] by {
                assert(keys[i] != keys[j]);
            }
        }
        lemma_mounts_by_key(input, front);
        assert(accepted(input).contains_key(keys[keys.len() - 1]));
        lemma_accepted(input, key);
        let before = decide_over(input, front).steps;
        let after = decide_over(input, keys).steps;
        assert(!front.contains(key)) by {
            if front.contains(key) {
                let i = choose|i: int| 0 <= i < front.len() && front[i] == key;
                assert(keys[i] == keys[keys.len() - 1]);
            }
        }
        assert forall|c: KeyView| front.contains(c) implies keys.contains(c) by {
            let i = choose|i: int| 0 <= i < front.len() && front[i] == c;
            assert(keys[i] == c);
        }
        assert(keys[keys.len() - 1] == key);
        assert(keys.contains(key));
        assert forall|i: int| 0 <= i < before.len() implies after[i] == #[trigger] before[i] by {}
        assert forall|i: int| before.len() <= i < after.len() && (
        #[trigger] after[i]).action is Mount implies after[i].action.key() == key && i
            == after.len() - 1 by {}
        assert forall|i: int| 0 <= i < after.len() && (
        #[trigger] after[i]).action is Mount implies keys.contains(after[i].action.key()) by {
            if i < before.len() {
                assert(before[i].action is Mount);
            }
        }
        assert forall|i: int, j: int|
            0 <= i < j < after.len() && (#[trigger] after[i]).action is Mount && (
            #[trigger] after[j]).action is Mount implies after[i].action.key()
            != after[j].action.key() by {
            if j < before.len() {
                assert(before[i].action is Mount && before[j].action is Mount);
            } else if i < before.len() {
                assert(before[i].action is Mount);
            }
        }
    }
}

/// No member is mounted twice in one plan, and no two members are mounted at
/// one target.
pub proof fn law_one_mount_per_member_and_target(input: InputView, i: int, j: int)
    requires
        plannable(input),
        0 <= i < j < planned(input).steps.len(),
        planned(input).steps[i].action is Mount,
        planned(input).steps[j].action is Mount,
    ensures
        planned(input).steps[i].action->desired.key != planned(input).steps[j].action->desired.key,
        planned(input).steps[i].action->desired.target
            != planned(input).steps[j].action->desired.target,
{
    let steps = decided(input).steps;
    let order = execution_order(steps);
    lemma_decided(input);
    lemma_execution_order(steps);
    lemma_accepted_keys(input);
    let keys = in_order::<RecordKey>(accepted(input).dom());
    lemma_draft_grows(input, keys);
    lemma_departed(input);
    assert forall|n: int| 0 <= n < departed(input).draft.steps.len() implies !((
    #[trigger] departed(input).draft.steps[n]).action is Mount) by {
        assert(departed(input).draft.steps[n].action.phase() == 0);
    }
    assert forall|n: int| 0 <= n < keys.len() implies accepted(input).contains_key(
        #[trigger] keys[n],
    ) by {
        assert(keys.to_set().contains(keys[n]));
    }
    assert(keys.no_duplicates()) by {
        RecordKey::lemma_key_order();
        let lt = |a: KeyView, b: KeyView| RecordKey::before(a, b);
        assert forall|a: int, b: int| 0 <= a < keys.len() && 0 <= b < keys.len() && a != b implies keys[a]
            != keys[b] by {
            assert(!lt(keys[a], keys[a]));
            if a < b {
                assert(RecordKey::before(keys[a], keys[b]));
            } else {
                assert(RecordKey::before(keys[b], keys[a]));
            }
        }
    }
    lemma_mounts_by_key(input, keys);
    let x = order[i] as int;
    let y = order[j] as int;
    assert(x != y);
    assert(sound_step(input, steps, x));
    assert(sound_step(input, steps, y));
    let a = steps[x].action->desired;
    let b = steps[y].action->desired;
    if x < y {
        assert(steps[x].action.key() != steps[y].action.key());
    } else {
        assert(steps[y].action.key() != steps[x].action.key());
    }
    lemma_accepted(input, a.key);
    lemma_accepted(input, b.key);
}

/// Whether a member is mounted just as it is desired.
pub open spec fn settled(input: InputView, d: DesiredView) -> bool {
    &&& input.state.contains_key(d.key)
    &&& is_recorded_at(input.state[d.key], d)
    &&& !relaxed(input.state[d.key], d.attrs)
    &&& !tightened(input.state[d.key], d.attrs)
    &&& input.source(d.key) == SourceView::Resolved(input.state[d.key].identity.root)
    &&& input.target(d.target) matches TargetView::Mounted { identity, attrs } && is_recorded_mount(
        identity,
        input.state[d.key].identity,
    ) && (attrs matches Some(observed) ==> enforces(observed, d.attrs))
}

proof fn lemma_settled_departed(input: InputView, keys: Seq<KeyView>)
    requires
        forall|i: int|
            0 <= i < keys.len() ==> !departs(input, input.state[#[trigger] keys[i]]),
    ensures
        depart_over(input, keys).draft.steps.len() == 0,
    decreases keys.len(),
{
    if keys.len() > 0 {
        let front = keys.drop_last();
        assert forall|i: int| 0 <= i < front.len() implies !departs(
            input,
            input.state[#[trigger] front[i]],
        ) by {
            assert(front[i] == keys[i]);
        }
        lemma_settled_departed(input, front);
        assert(!departs(input, input.state[keys[keys.len() - 1]]));
    }
}

proof fn lemma_settled_members(input: InputView, keys: Seq<KeyView>)
    requires
        departed(input).draft.steps.len() == 0,
        forall|i: int|
            0 <= i < keys.len() ==> accepted(input)[#[trigger] keys[i]].key == keys[i] && settled(
                input,
                accepted(input)[keys[i]],
            ),
    ensures
        decide_over(input, keys).steps.len() == 0,
    decreases keys.len(),
{
    if keys.len() > 0 {
        let front = keys.drop_last();
        assert forall|i: int| 0 <= i < front.len() implies accepted(input)[#[trigger] front[i]].key
            == front[i] && settled(input, accepted(input)[front[i]]) by {
            assert(front[i] == keys[i]);
        }
        lemma_settled_members(input, front);
        assert(settled(input, accepted(input)[keys[keys.len() - 1]]));
    }
}

/// Where every accepted member is mounted just as it is desired and no record
/// departs, the plan does nothing: reconciling again, or after a restart, is
/// a no-op.
pub proof fn law_settled_is_noop(input: InputView)
    requires
        plannable(input),
        forall|k: KeyView| #[trigger]
            accepted(input).contains_key(k) ==> settled(input, accepted(input)[k]),
        forall|k: KeyView| #[trigger]
            input.state.contains_key(k) ==> !departs(input, input.state[k]),
    ensures
        planned(input).steps.len() == 0,
{
    let records = in_order::<RecordKey>(input.state.dom());
    crate::order::lemma_in_order_finite::<RecordKey>(input.state.dom());
    assert forall|i: int| 0 <= i < records.len() implies !departs(
        input,
        input.state[#[trigger] records[i]],
    ) by {
        assert(records.to_set().contains(records[i]));
        assert(input.state.contains_key(records[i]));
    }
    lemma_settled_departed(input, records);
    lemma_accepted_keys(input);
    let keys = in_order::<RecordKey>(accepted(input).dom());
    assert forall|i: int| 0 <= i < keys.len() implies accepted(input)[#[trigger] keys[i]].key
        == keys[i] && settled(input, accepted(input)[keys[i]]) by {
        assert(keys.to_set().contains(keys[i]));
        assert(accepted(input).contains_key(keys[i]));
        lemma_accepted(input, keys[i]);
    }
    lemma_settled_members(input, keys);
    lemma_execution_order(decided(input).steps);
}

} // verus!
