//! Paths stay confined: from the templates to the records, through every pass.
use vstd::prelude::*;

use crate::document::{clean_paths, collect, decoded};
use crate::name::{valid_name, GroupIdView};
use crate::reconcile::decision::{planned, InputView};
use crate::reconcile::execute::{answers, in_step, transition, ExecutorView, Reply, StageView};
use crate::reconcile::laws::{law_mounts_cover_nothing, law_only_own_mounts_are_touched, plannable};
use crate::reconcile::observe::{asked_for, finite_scans, law_desired_mounts_are_asked_for, observe_groups, ready_group, GroupScanView, ScanView};
use crate::reconcile::plan::{ActionView, DesiredView, StepView};
use crate::reconcile::Trigger;
use crate::state::{clean_relative, keyed, KeyView, RecordView};
use crate::template::{bound_template, interpolated, law_names_never_introduce_traversal, valid_template, TemplateView};
use crate::text::{join, split};

verus! {

/// What is interpolated from a valid name is a relative path that leads
/// nowhere but beneath the root it is resolved against.
pub proof fn law_interpolated_paths_are_clean(t: TemplateView, name: Seq<char>)
    requires
        valid_template(t),
        bound_template(t),
        valid_name(name),
    ensures
        interpolated(t, name) matches Ok(parts) ==> clean_relative(join(parts, seq!['/'])),
{
    law_names_never_introduce_traversal(t, name);
    if interpolated(t, name) is Ok {
        let parts = interpolated(t, name)->Ok_0;
        let path = join(parts, seq!['/']);
        crate::text::lemma_split_nonempty(t.raw, '/');
        assert(parts[0].len() > 0 && parts[parts.len() - 1].len() > 0);
        crate::text::lemma_join_ends(parts, seq!['/']);
        if path.contains('\0') {
            crate::text::lemma_join_within(parts, '/', '\0');
        }
        assert(split(path, '/') == parts);
    }
}

/// Whether both paths of a desired mount are relative and clean.
pub open spec fn clean_desired(d: DesiredView) -> bool {
    clean_relative(d.source.path) && clean_relative(d.target.path)
}

/// Whether the scans are of groups with valid templates and of members with
/// valid names.
pub open spec fn valid_scans(scans: Seq<GroupScanView>) -> bool {
    forall|j: int|
        0 <= j < scans.len() ==> {
            &&& ready_group((#[trigger] scans[j]).config)
            &&& valid_template(scans[j].config.source)
            &&& valid_template(scans[j].config.target)
            &&& scans[j].scan matches ScanView::Scanned { members, rejected } ==> forall|n: Seq<
                char,
            >| #[trigger]
                members.contains(n) ==> valid_name(n)
        }
}

/// Whatever the membership directories hold, every desired mount is from
/// beneath its source root and at a place beneath its target root.
pub proof fn law_desired_paths_are_clean(
    degraded: Set<GroupIdView>,
    scans: Seq<GroupScanView>,
    i: int,
)
    requires
        finite_scans(scans),
        valid_scans(scans),
        0 <= i < observe_groups(degraded, scans).desired.len(),
    ensures
        clean_desired(observe_groups(degraded, scans).desired[i]),
{
    law_desired_mounts_are_asked_for(degraded, scans, i);
    let d = observe_groups(degraded, scans).desired[i];
    let j = choose|j: int| 0 <= j < scans.len() && asked_for(degraded, #[trigger] scans[j], d);
    let config = scans[j].config;
    law_interpolated_paths_are_clean(config.source, d.key.name);
    law_interpolated_paths_are_clean(config.target, d.key.name);
}

/// Whether a step mounts or records nothing but clean paths.
pub open spec fn clean_action(action: ActionView) -> bool {
    match action {
        ActionView::Mount { desired } => clean_desired(desired),
        ActionView::Reattr { record, attrs } => clean_relative(record.source) && clean_relative(
            record.target,
        ),
        _ => true,
    }
}

/// A plan for clean desires and clean records takes clean steps.
pub proof fn law_planned_steps_are_clean(input: InputView, i: int)
    requires
        plannable(input),
        clean_paths(input.state),
        forall|j: int| 0 <= j < input.desired.len() ==> clean_desired(#[trigger] input.desired[j]),
        0 <= i < planned(input).steps.len(),
    ensures
        clean_action(planned(input).steps[i].action),
{
    law_only_own_mounts_are_touched(input, i);
    if planned(input).steps[i].action is Mount {
        law_mounts_cover_nothing(input, i);
    }
}

/// Whether the record that a stage may put back has clean paths.
pub open spec fn clean_stage(stage: StageView) -> bool {
    match stage {
        StageView::SavingMount { identity, previous } => clean_record(previous),
        StageView::SavingReattr(previous) => clean_record(previous),
        _ => true,
    }
}

/// Whether a record, if there is one, has clean paths.
pub open spec fn clean_record(record: Option<RecordView>) -> bool {
    record matches Some(r) ==> clean_relative(r.source) && clean_relative(r.target)
}

/// Executing clean steps keeps the records clean, whatever the replies are: the
/// state can always be read back.
pub proof fn law_states_stay_clean(
    steps: Seq<StepView>,
    x: ExecutorView,
    state: Map<KeyView, RecordView>,
    reply: Reply,
    trigger: Trigger,
)
    requires
        in_step(steps, x),
        answers(x, steps[x.results.len() as int].action, reply),
        forall|i: int| 0 <= i < steps.len() ==> clean_action((#[trigger] steps[i]).action),
        clean_paths(state),
        clean_stage(x.stage),
    ensures
        clean_paths(transition(steps, x, state, reply, trigger).state),
        clean_stage(transition(steps, x, state, reply, trigger).executor.stage),
{
    let n = x.results.len() as int;
    if n < steps.len() {
        assert(clean_action(steps[n].action));
    }
}

proof fn lemma_collected_clean(records: Seq<RecordView>)
    ensures
        collect(records) matches Ok(state) ==> clean_paths(state) && keyed(state),
    decreases records.len(),
{
    if records.len() > 0 {
        lemma_collected_clean(records.drop_last());
    }
}

/// Whatever a state file holds, the records that are decoded from it have clean
/// paths and stand under their own keys.
pub proof fn law_decoded_states_are_clean(bytes: Seq<u8>)
    ensures
        decoded(bytes) matches Ok(state) ==> clean_paths(state) && keyed(state),
{
    assert forall|records: Seq<RecordView>|
        (#[trigger] collect(records)) matches Ok(state) ==> clean_paths(state) && keyed(state) by {
        lemma_collected_clean(records);
    }
}

} // verus!
