//! The decision table of reconciliation, stated over what the planner reads.
//!
//! | # | member | record | mount at target | identity | source | action |
//! |---|---|---|---|---|---|---|
//! | 1 | yes | no | no | | resolves | mount |
//! | 2 | yes | no | no | | fails | report |
//! | 3 | yes | no | yes | | | report a conflict |
//! | 4 | yes | yes | yes | match | same | nothing; if attributes differ, mend them or unmount, then mount |
//! | 5 | yes | yes | yes | match | changed | unmount, then mount |
//! | 6 | yes | yes | yes | match | fails | unmount |
//! | 7 | yes | yes | yes | mismatch | | report a conflict, keep the record |
//! | 8 | yes | yes | no | | resolves | mount |
//! | 9 | yes | yes | no | | fails | drop the record, report |
//! | 10 | no | yes | yes | match | | unmount |
//! | 11 | no | yes | yes | mismatch | | drop the record |
//! | 12 | no | yes | no | | | drop the record |
//!
//! A record at another location than the desired one is a record of a
//! non-member there, and the member has no record at the new location.
use vstd::prelude::*;

use crate::config::MountAttrs;
use crate::identity::{is_recorded_mount, MountIdentity};
use crate::name::GroupIdView;
use crate::order::{in_order, Key};
use crate::reconcile::plan::{enforces, ActionView, ConflictKind, DesiredView, DropReasonView, FindingView, Location, LocationView, ObservedAttrs, PlanView, SourceView, StepView, TargetView, UnmountReasonView};
use crate::state::{KeyView, RecordKey, RecordView};

verus! {

/// What the planner reads.
pub struct InputView {
    /// Desired mounts.
    pub desired: Seq<DesiredView>,
    /// State records.
    pub state: Map<KeyView, RecordView>,
    /// Groups whose records are left untouched.
    pub frozen: Set<GroupIdView>,
    /// Observed sources.
    pub sources: Map<KeyView, SourceView>,
    /// Observed targets.
    pub targets: Map<LocationView, TargetView>,
}

impl InputView {
    /// What is known of a target; one that was not observed is unavailable.
    pub open spec fn target(self, location: LocationView) -> TargetView {
        if self.targets.contains_key(location) {
            self.targets[location]
        } else {
            TargetView::Unavailable("target was not observed"@)
        }
    }

    /// What is known of a source; one that was not observed is unavailable.
    pub open spec fn source(self, key: KeyView) -> SourceView {
        if self.sources.contains_key(key) {
            self.sources[key]
        } else {
            SourceView::Unavailable("source was not observed"@)
        }
    }

    /// Whether the mount of `record` is at its target.
    pub open spec fn is_mounted(self, record: RecordView) -> bool {
        self.target(record.target_location()) matches TargetView::Mounted { identity, attrs }
            && is_recorded_mount(identity, record.identity)
    }
}

/// Whether a record is of the desired mount, at the desired locations.
pub open spec fn is_recorded_at(record: RecordView, d: DesiredView) -> bool {
    record.source_location() == d.source && record.target_location() == d.target
}

// Target collisions.

/// The desired mounts of groups that are not frozen, at one target, in the
/// order given.
pub open spec fn wanted_at(
    desired: Seq<DesiredView>,
    frozen: Set<GroupIdView>,
    target: LocationView,
) -> Seq<DesiredView>
    decreases desired.len(),
{
    if desired.len() == 0 {
        Seq::empty()
    } else {
        let front = wanted_at(desired.drop_last(), frozen, target);
        let last = desired.last();
        if !frozen.contains(last.key.group) && last.target == target {
            front.push(last)
        } else {
            front
        }
    }
}

/// The targets of the desired mounts of groups that are not frozen.
pub open spec fn wanted_targets(desired: Seq<DesiredView>, frozen: Set<GroupIdView>) -> Set<
    LocationView,
>
    decreases desired.len(),
{
    if desired.len() == 0 {
        Set::empty()
    } else {
        let front = wanted_targets(desired.drop_last(), frozen);
        let last = desired.last();
        if !frozen.contains(last.key.group) {
            front.insert(last.target)
        } else {
            front
        }
    }
}

/// `members`, sorted by key, with `d` put behind those that do not come after
/// it.
pub open spec fn insert_by_key(members: Seq<DesiredView>, d: DesiredView) -> Seq<DesiredView>
    decreases members.len(),
{
    if members.len() > 0 && RecordKey::before(d.key, members.last().key) {
        insert_by_key(members.drop_last(), d).push(members.last())
    } else {
        members.push(d)
    }
}

/// The members sorted by key; equal keys keep their order.
pub open spec fn by_key(members: Seq<DesiredView>) -> Seq<DesiredView>
    decreases members.len(),
{
    if members.len() == 0 {
        Seq::empty()
    } else {
        insert_by_key(by_key(members.drop_last()), members.last())
    }
}

/// Whether the desired mount is recorded where it is wanted, and mounted.
pub open spec fn holds_target(input: InputView, d: DesiredView) -> bool {
    &&& input.state.contains_key(d.key)
    &&& is_recorded_at(input.state[d.key], d)
    &&& input.is_mounted(input.state[d.key])
}

/// The first of the members that holds its target already.
pub open spec fn first_holder(input: InputView, members: Seq<DesiredView>) -> Option<DesiredView>
    decreases members.len(),
{
    if members.len() == 0 {
        None
    } else {
        match first_holder(input, members.drop_last()) {
            Some(d) => Some(d),
            None => if holds_target(input, members.last()) {
                Some(members.last())
            } else {
                None
            },
        }
    }
}

/// All members that want the target, sorted by key.
pub open spec fn contenders(input: InputView, target: LocationView) -> Seq<DesiredView> {
    by_key(wanted_at(input.desired, input.frozen, target))
}

/// The member that may have the target: the only one that wants it, or else
/// the one that is already mounted there.
pub open spec fn admitted(input: InputView, target: LocationView) -> Option<DesiredView> {
    let members = wanted_at(input.desired, input.frozen, target);
    if members.len() == 1 {
        Some(members[0])
    } else {
        first_holder(input, contenders(input, target))
    }
}

/// The admitted members by key, over the targets in order.
pub open spec fn accepted_over(input: InputView, targets: Seq<LocationView>) -> Map<
    KeyView,
    DesiredView,
>
    decreases targets.len(),
{
    if targets.len() == 0 {
        Map::empty()
    } else {
        let front = accepted_over(input, targets.drop_last());
        match admitted(input, targets.last()) {
            Some(d) => front.insert(d.key, d),
            None => front,
        }
    }
}

/// The collisions, over the targets in order.
pub open spec fn collisions_over(input: InputView, targets: Seq<LocationView>) -> Seq<FindingView>
    decreases targets.len(),
{
    if targets.len() == 0 {
        Seq::empty()
    } else {
        let front = collisions_over(input, targets.drop_last());
        let target = targets.last();
        if wanted_at(input.desired, input.frozen, target).len() == 1 {
            front
        } else {
            front.push(
                FindingView::TargetCollision {
                    target,
                    members: contenders(input, target).map_values(|d: DesiredView| d.key),
                    kept: match admitted(input, target) {
                        Some(d) => Some(d.key),
                        None => None,
                    },
                },
            )
        }
    }
}

/// The targets in order.
pub open spec fn targets_in_order(input: InputView) -> Seq<LocationView> {
    in_order::<Location>(wanted_targets(input.desired, input.frozen))
}

/// The members to process, by key.
pub open spec fn accepted(input: InputView) -> Map<KeyView, DesiredView> {
    accepted_over(input, targets_in_order(input))
}

// What has been decided so far.

/// An action and the earlier actions that must succeed first.
#[verifier::ext_equal]
pub struct DraftStep {
    /// The action.
    pub action: ActionView,
    /// Positions of earlier draft steps.
    pub needs: Seq<usize>,
}

/// Actions and findings in the order in which they were decided.
#[verifier::ext_equal]
pub struct Draft {
    /// The actions.
    pub steps: Seq<DraftStep>,
    /// The findings.
    pub findings: Seq<FindingView>,
}

impl Draft {
    /// The draft with one more action.
    pub open spec fn act(self, action: ActionView, needs: Seq<usize>) -> Draft {
        Draft { steps: self.steps.push(DraftStep { action, needs }), findings: self.findings }
    }

    /// The draft with one more finding.
    pub open spec fn report(self, finding: FindingView) -> Draft {
        Draft { steps: self.steps, findings: self.findings.push(finding) }
    }
}

/// What the departing records leave behind for the members.
#[verifier::ext_equal]
pub struct Departed {
    /// The draft.
    pub draft: Draft,
    /// For each departing record, the step that removes it, or `None` if the
    /// record must be kept.
    pub removals: Map<KeyView, Option<usize>>,
    /// Targets freed by an unmount: the step, and the identity it removes.
    pub freed: Map<LocationView, (usize, MountIdentity)>,
}

// Records that are not desired where they are: rows 10 to 12.

/// Whether the record is to be removed: its group is not frozen and it is not
/// the record of an accepted member at its desired location.
pub open spec fn departs(input: InputView, record: RecordView) -> bool {
    &&& !input.frozen.contains(record.group)
    &&& !(accepted(input).contains_key(record.key()) && is_recorded_at(
        record,
        accepted(input)[record.key()],
    ))
}

/// Whether some desired mount of a group that is not frozen has the key.
pub open spec fn is_wanted(input: InputView, key: KeyView) -> bool {
    exists|i: int|
        0 <= i < input.desired.len() && (#[trigger] input.desired[i]).key == key
            && !input.frozen.contains(key.group)
}

/// Why a departing mount is removed.
pub open spec fn departure_reason(input: InputView, key: KeyView) -> UnmountReasonView {
    if accepted(input).contains_key(key) {
        UnmountReasonView::Relocated
    } else if is_wanted(input, key) {
        UnmountReasonView::TargetCollision
    } else {
        UnmountReasonView::NotMember
    }
}

/// Deciding about one departing record.
pub open spec fn depart_one(input: InputView, d: Departed, record: RecordView) -> Departed {
    let key = record.key();
    let location = record.target_location();
    let id = d.draft.steps.len() as usize;
    match input.target(location) {
        TargetView::NotMounted => Departed {
            draft: d.draft.act(
                ActionView::DropRecord { record, reason: DropReasonView::MountGone },
                Seq::empty(),
            ),
            removals: d.removals.insert(key, Some(id)),
            freed: d.freed,
        },
        TargetView::Mounted { identity, attrs } => if is_recorded_mount(
            identity,
            record.identity,
        ) {
            Departed {
                draft: d.draft.act(
                    ActionView::Unmount { record, reason: departure_reason(input, key) },
                    Seq::empty(),
                ),
                removals: d.removals.insert(key, Some(id)),
                freed: d.freed.insert(location, (id, identity)),
            }
        } else {
            Departed {
                draft: d.draft.act(
                    ActionView::DropRecord { record, reason: DropReasonView::ForeignMountAtTarget },
                    Seq::empty(),
                ),
                removals: d.removals.insert(key, Some(id)),
                freed: d.freed,
            }
        },
        TargetView::Unavailable(reason) => Departed {
            draft: d.draft.report(
                FindingView::TargetUnavailable { key, target: location, reason },
            ),
            removals: d.removals.insert(key, None),
            freed: d.freed,
        },
    }
}

/// Deciding about the departing records among `keys`, in order.
pub open spec fn depart_over(input: InputView, keys: Seq<KeyView>) -> Departed
    decreases keys.len(),
{
    if keys.len() == 0 {
        Departed {
            draft: Draft {
                steps: Seq::empty(),
                findings: collisions_over(input, targets_in_order(input)),
            },
            removals: Map::empty(),
            freed: Map::empty(),
        }
    } else {
        let d = depart_over(input, keys.drop_last());
        let record = input.state[keys.last()];
        if departs(input, record) {
            depart_one(input, d, record)
        } else {
            d
        }
    }
}

/// What all departing records leave behind.
pub open spec fn departed(input: InputView) -> Departed {
    depart_over(input, in_order::<RecordKey>(input.state.dom()))
}

// Members without a record at their desired location: rows 1 to 3.

/// The step that frees the target from the mount that is observed there.
pub open spec fn freed_by(departed: Departed, target: LocationView, identity: MountIdentity) -> Option<
    usize,
> {
    if departed.freed.contains_key(target) && departed.freed[target].1 == identity {
        Some(departed.freed[target].0)
    } else {
        None
    }
}

/// Deciding about a member without a record at its desired location.
pub open spec fn decide_unrecorded(
    input: InputView,
    departed: Departed,
    draft: Draft,
    d: DesiredView,
) -> Draft {
    let removal = if departed.removals.contains_key(d.key) {
        Some(departed.removals[d.key])
    } else {
        None
    };
    if removal == Some(None::<usize>) {
        draft.report(
            FindingView::RelocationBlocked {
                key: d.key,
                old_target: if input.state.contains_key(d.key) {
                    input.state[d.key].target_location()
                } else {
                    d.target
                },
            },
        )
    } else {
        let first: Seq<usize> = match removal {
            Some(Some(id)) => seq![id],
            _ => Seq::empty(),
        };
        match input.target(d.target) {
            TargetView::NotMounted => decide_mount(input, draft, d, first),
            TargetView::Mounted { identity, attrs } => match freed_by(departed, d.target, identity) {
                Some(id) => decide_mount(input, draft, d, first.push(id)),
                None => draft.report(
                    FindingView::Conflict {
                        key: d.key,
                        target: d.target,
                        kind: ConflictKind::ForeignMount,
                    },
                ),
            },
            TargetView::Unavailable(reason) => draft.report(
                FindingView::TargetUnavailable { key: d.key, target: d.target, reason },
            ),
        }
    }
}

/// Mounting a member, if its source resolves.
pub open spec fn decide_mount(
    input: InputView,
    draft: Draft,
    d: DesiredView,
    needs: Seq<usize>,
) -> Draft {
    match input.source(d.key) {
        SourceView::Resolved(_) => draft.act(ActionView::Mount { desired: d }, needs),
        SourceView::Unavailable(reason) => draft.report(
            FindingView::SourceUnavailable { key: d.key, source: d.source, reason },
        ),
    }
}

// Members with a record at their desired location: rows 4 to 9.

/// Whether the mount was made with a restriction that is no longer configured.
pub open spec fn relaxed(record: RecordView, attrs: MountAttrs) -> bool {
    ||| record.read_only == Some(true) && !attrs.read_only
    ||| record.noexec == Some(true) && !attrs.noexec
    ||| record.nosymfollow == Some(true) && !attrs.nosymfollow
}

/// Whether the mount was made without a restriction that is configured now. A
/// record that does not tell how the mount was made does not differ.
pub open spec fn tightened(record: RecordView, attrs: MountAttrs) -> bool {
    ||| record.read_only == Some(false) && attrs.read_only
    ||| record.noexec == Some(false) && attrs.noexec
    ||| record.nosymfollow == Some(false) && attrs.nosymfollow
}

/// Whether a mount is seen to lack a configured restriction.
pub open spec fn lacks_attrs(observed: Option<ObservedAttrs>, attrs: MountAttrs) -> bool {
    observed matches Some(seen) && !enforces(seen, attrs)
}

/// The draft with an unmount, and a mount that depends on it.
pub open spec fn remount(
    draft: Draft,
    record: RecordView,
    reason: UnmountReasonView,
    d: DesiredView,
) -> Draft {
    draft.act(ActionView::Unmount { record, reason }, Seq::empty()).act(
        ActionView::Mount { desired: d },
        seq![draft.steps.len() as usize],
    )
}

/// Deciding about a member with a record at its desired location.
pub open spec fn decide_recorded(
    input: InputView,
    draft: Draft,
    d: DesiredView,
    record: RecordView,
) -> Draft {
    match input.target(d.target) {
        TargetView::Mounted { identity, attrs } => if is_recorded_mount(
            identity,
            record.identity,
        ) {
            match input.source(d.key) {
                SourceView::Resolved(root) => if root == record.identity.root {
                    if relaxed(record, d.attrs) {
                        remount(draft, record, UnmountReasonView::AttributesRelaxed, d)
                    } else if lacks_attrs(attrs, d.attrs) {
                        draft.act(ActionView::Reattr { record, attrs: d.attrs }, Seq::empty())
                    } else if tightened(record, d.attrs) {
                        remount(draft, record, UnmountReasonView::AttributesChanged, d)
                    } else {
                        draft
                    }
                } else {
                    remount(draft, record, UnmountReasonView::SourceChanged, d)
                },
                SourceView::Unavailable(reason) => draft.act(
                    ActionView::Unmount { record, reason: UnmountReasonView::SourceGone(reason) },
                    Seq::empty(),
                ),
            }
        } else {
            draft.report(
                FindingView::Conflict {
                    key: d.key,
                    target: d.target,
                    kind: ConflictKind::TargetReplaced,
                },
            )
        },
        TargetView::NotMounted => match input.source(d.key) {
            SourceView::Resolved(_) => draft.act(ActionView::Mount { desired: d }, Seq::empty()),
            SourceView::Unavailable(reason) => draft.act(
                ActionView::DropRecord { record, reason: DropReasonView::SourceUnavailable(reason) },
                Seq::empty(),
            ).report(FindingView::SourceUnavailable { key: d.key, source: d.source, reason }),
        },
        TargetView::Unavailable(reason) => draft.report(
            FindingView::TargetUnavailable { key: d.key, target: d.target, reason },
        ),
    }
}

/// Deciding about one accepted member.
pub open spec fn decide_member(
    input: InputView,
    departed: Departed,
    draft: Draft,
    d: DesiredView,
) -> Draft {
    if input.state.contains_key(d.key) && is_recorded_at(input.state[d.key], d) {
        decide_recorded(input, draft, d, input.state[d.key])
    } else {
        decide_unrecorded(input, departed, draft, d)
    }
}

/// Deciding about the accepted members among `keys`, in order.
pub open spec fn decide_over(input: InputView, keys: Seq<KeyView>) -> Draft
    decreases keys.len(),
{
    if keys.len() == 0 {
        departed(input).draft
    } else {
        decide_member(
            input,
            departed(input),
            decide_over(input, keys.drop_last()),
            accepted(input)[keys.last()],
        )
    }
}

/// Everything that is decided, in the order in which it is decided.
pub open spec fn decided(input: InputView) -> Draft {
    decide_over(input, in_order::<RecordKey>(accepted(input).dom()))
}

// The order of execution.

/// The positions of the draft steps of one phase, among the first `n`.
pub open spec fn of_phase(steps: Seq<DraftStep>, phase: u8, n: nat) -> Seq<usize>
    decreases n,
{
    if n == 0 {
        Seq::empty()
    } else {
        let front = of_phase(steps, phase, (n - 1) as nat);
        if steps[n - 1].action.phase() == phase {
            front.push((n - 1) as usize)
        } else {
            front
        }
    }
}

/// The positions of the draft steps in the order of execution: by phase, and
/// within a phase as they were decided.
pub open spec fn execution_order(steps: Seq<DraftStep>) -> Seq<usize> {
    of_phase(steps, 0, steps.len()) + of_phase(steps, 1, steps.len()) + of_phase(
        steps,
        2,
        steps.len(),
    )
}

/// `sorted` with `x` put in its place, once.
pub open spec fn insert_number(sorted: Seq<usize>, x: usize) -> Seq<usize>
    decreases sorted.len(),
{
    if sorted.len() > 0 && x < sorted.last() {
        insert_number(sorted.drop_last(), x).push(sorted.last())
    } else if sorted.len() > 0 && x == sorted.last() {
        sorted
    } else {
        sorted.push(x)
    }
}

/// Where the needed draft steps stand in the order of execution, ascending
/// and without repetition.
pub open spec fn positions(order: Seq<usize>, needs: Seq<usize>) -> Seq<usize>
    decreases needs.len(),
{
    if needs.len() == 0 {
        Seq::empty()
    } else {
        insert_number(
            positions(order, needs.drop_last()),
            order.index_of(needs.last()) as usize,
        )
    }
}

/// The plan of a draft.
pub open spec fn arranged(draft: Draft) -> PlanView {
    let order = execution_order(draft.steps);
    PlanView {
        steps: order.map_values(
            |id: usize|
                StepView {
                    action: draft.steps[id as int].action,
                    depends_on: positions(order, draft.steps[id as int].needs),
                },
        ),
        findings: draft.findings,
    }
}

/// The plan for an input.
pub open spec fn planned(input: InputView) -> PlanView {
    arranged(decided(input))
}

} // verus!
