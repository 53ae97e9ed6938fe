//! One reconciliation pass, and what is left alone across passes.
use vstd::prelude::*;
use vstd::string::*;

use crate::logging::{field, LogRecord, LogRecordView, Severity};
use crate::name::{GroupId, GroupIdView, Name};
use crate::order::KeySet;
use crate::reconcile::decision::planned;
use crate::reconcile::execute::{count_of, result_views, Execution, StepResultView};
use crate::reconcile::observe::{Note, NoteView, Observed, ObservedView};
use crate::reconcile::plan::{plan, FindingView, Plan, PlanInput, PlanView};
use crate::reconcile::{active_after, finding_record, log_findings, log_record, record_views, report_records, NoteLog, Trigger};
use crate::state::State;
use crate::text::{decimal, decimal_text};

verus! {

/// Groups and group sets whose membership directories were lost. They are left
/// alone until configuration is reloaded.
#[derive(Debug, PartialEq, Eq)]
pub struct Degraded {
    /// Statically configured groups.
    pub groups: KeySet<GroupId>,
    /// Group sets.
    pub sets: KeySet<Name>,
}

/// What is left alone.
#[verifier::ext_equal]
pub struct DegradedView {
    /// Statically configured groups.
    pub groups: Set<GroupIdView>,
    /// Group sets.
    pub sets: Set<Seq<char>>,
}

impl View for Degraded {
    type V = DegradedView;

    open spec fn view(&self) -> DegradedView {
        DegradedView { groups: self.groups@, sets: self.sets@ }
    }
}

impl Default for Degraded {
    fn default() -> (r: Self)
        ensures
            r@ == (DegradedView { groups: Set::empty(), sets: Set::empty() }),
    {
        Degraded { groups: KeySet::new(), sets: KeySet::new() }
    }
}

/// What is left alone after a pass that made notes.
pub open spec fn degraded_by(d: DegradedView, notes: Seq<NoteView>) -> DegradedView
    decreases notes.len(),
{
    if notes.len() == 0 {
        d
    } else {
        let front = degraded_by(d, notes.drop_last());
        match notes.last() {
            NoteView::MembershipDeleted { group } => DegradedView {
                groups: front.groups.insert(group),
                ..front
            },
            NoteView::SetRootDeleted { set } => DegradedView {
                sets: front.sets.insert(set),
                ..front
            },
            _ => front,
        }
    }
}

impl Degraded {
    /// Whether nothing is left alone.
    pub fn is_empty(&self) -> (r: bool)
        ensures
            r <==> self@ == (DegradedView { groups: Set::empty(), sets: Set::empty() }),
    {
        let r = self.groups.is_empty() && self.sets.is_empty();
        proof {
            if r {
                assert(self@ =~= (DegradedView { groups: Set::empty(), sets: Set::empty() }));
            }
        }
        r
    }

    /// Takes in the notes of a pass: what was found to be deleted is left alone
    /// from then on.
    pub fn absorb(&mut self, notes: &Vec<Note>)
        ensures
            final(self)@ == degraded_by(
                old(self)@,
                crate::reconcile::observe::note_views(notes@),
            ),
    {
        let ghost start = self@;
        let ghost views = crate::reconcile::observe::note_views(notes@);
        let mut i: usize = 0;
        assert(views.take(0) =~= Seq::empty());
        while i < notes.len()
            invariant
                i <= notes@.len(),
                views == crate::reconcile::observe::note_views(notes@),
                self@ == degraded_by(start, views.take(i as int)),
            decreases notes@.len() - i,
        {
            let note = &notes[i];
            proof {
                assert(views.take(i + 1).drop_last() =~= views.take(i as int));
                assert(views.take(i + 1).last() == note@);
            }
            match note {
                Note::MembershipDeleted { group } => {
                    let _ = self.groups.insert(group.clone());
                },
                Note::SetRootDeleted { set } => {
                    let _ = self.sets.insert(set.clone());
                },
                _ => {},
            }
            i += 1;
        }
        assert(views.take(views.len() as int) =~= views);
    }
}

/// The outcome of a pass.
#[derive(Debug)]
pub struct Pass {
    /// What was observed.
    pub observed: Observed,
    /// What was planned.
    pub plan: Plan,
    /// What happened.
    pub execution: Execution,
}

/// Plans what a pass over what was observed has to do.
pub fn plan_for(observed: &Observed, state: &State) -> (r: Plan)
    ensures
        r@ == planned(observed@.input(state@)),
{
    let input = PlanInput {
        desired: observed.desired.as_slice(),
        state,
        frozen_groups: &observed.frozen,
        observations: &observed.observations,
    };
    assert(input@ =~= observed@.input(state@));
    plan(input)
}

/// What a pass logs before it executes anything.
pub open spec fn pass_records(
    active: Map<crate::reconcile::NoteKeyView, Seq<char>>,
    o: ObservedView,
    p: PlanView,
    trigger: Trigger,
) -> Seq<LogRecordView> {
    report_records(active, o, trigger) + p.findings.map_values(
        |f: FindingView| finding_record(f, trigger),
    )
}

/// Plans a pass over what was observed, and reports observations and findings.
/// `notes` remembers which observation notes were already logged, so a
/// persistent problem (such as a rejected membership file) is logged once
/// rather than on every pass.
pub fn begin_pass(observed: &Observed, state: &State, trigger: Trigger, notes: &mut NoteLog) -> (r: (
    Plan,
    Vec<LogRecord>,
))
    ensures
        r.0@ == planned(observed@.input(state@)),
        record_views(r.1@) == pass_records(
            old(notes)@,
            observed@,
            planned(observed@.input(state@)),
            trigger,
        ),
        final(notes)@ == active_after(old(notes)@, observed@),
{
    let mut logs = notes.report(observed, trigger);
    let plan = plan_for(observed, state);
    let mut found = log_findings(&plan.findings, trigger);
    let ghost first = record_views(logs@);
    let ghost second = record_views(found@);
    logs.append(&mut found);
    assert(record_views(logs@) =~= first + second);
    (plan, logs)
}

impl Pass {
    /// Whether every step that was tried succeeded.
    pub fn succeeded(&self) -> (r: bool)
        ensures
            r <==> count_of(
                result_views(self.execution.results@),
                |x: StepResultView| x is Failed,
            ) == 0,
    {
        self.execution.failures() == 0
    }
}

/// What is logged of a pass that was not asked for by the daemon.
pub open spec fn outcome_fields(steps: nat, completed: nat, failed: nat, findings: nat) -> Seq<
    crate::logging::LogFieldView,
> {
    seq![
        field("steps"@, decimal(steps)),
        field("completed"@, decimal(completed)),
        field("failed"@, decimal(failed)),
        field("findings"@, decimal(findings)),
    ]
}

fn add_outcome(record: &mut LogRecord, pass: &Pass)
    ensures
        final(record)@.severity == old(record)@.severity,
        final(record)@.fields == old(record)@.fields + outcome_fields(
            pass.plan@.steps.len(),
            count_of(result_views(pass.execution.results@), |x: StepResultView| x is Done),
            count_of(result_views(pass.execution.results@), |x: StepResultView| x is Failed),
            pass.plan@.findings.len(),
        ),
{
    let ghost before = record@.fields;
    proof {
        assert(pass.plan@.steps.len() == pass.plan.steps@.len());
        assert(pass.plan@.findings.len() == pass.plan.findings@.len());
    }
    record.add("steps", decimal_text(pass.plan.steps.len() as u64).as_str());
    record.add("completed", decimal_text(pass.execution.completed() as u64).as_str());
    record.add("failed", decimal_text(pass.execution.failures() as u64).as_str());
    record.add("findings", decimal_text(pass.plan.findings.len() as u64).as_str());
    assert(record@.fields =~= before + outcome_fields(
        pass.plan@.steps.len(),
        count_of(result_views(pass.execution.results@), |x: StepResultView| x is Done),
        count_of(result_views(pass.execution.results@), |x: StepResultView| x is Failed),
        pass.plan@.findings.len(),
    ));
}

/// What is logged at the end of a pass. A pass of the daemon in which nothing
/// was planned and nothing found is only worth a debug message.
pub open spec fn completion_record(
    trigger: Trigger,
    steps: nat,
    completed: nat,
    failed: nat,
    findings: nat,
) -> LogRecordView {
    if trigger == Trigger::Cli {
        log_record(
            Severity::Info,
            seq![field("msg"@, "reconcile complete"@)] + outcome_fields(
                steps,
                completed,
                failed,
                findings,
            ),
        )
    } else if steps == 0 && findings == 0 {
        log_record(
            Severity::Debug,
            seq![
                field("msg"@, "reconcile complete"@),
                field("trigger"@, trigger.text()),
                field("steps"@, decimal(0)),
            ],
        )
    } else {
        log_record(
            Severity::Info,
            seq![
                field("msg"@, "reconcile complete"@),
                field("trigger"@, trigger.text()),
            ] + outcome_fields(steps, completed, failed, findings),
        )
    }
}

/// What is logged at the end of a pass.
pub fn log_completion(pass: &Pass, trigger: Trigger) -> (r: LogRecord)
    ensures
        r@ == completion_record(
            trigger,
            pass.plan@.steps.len(),
            count_of(result_views(pass.execution.results@), |x: StepResultView| x is Done),
            count_of(result_views(pass.execution.results@), |x: StepResultView| x is Failed),
            pass.plan@.findings.len(),
        ),
{
    let ghost expected = completion_record(
        trigger,
        pass.plan@.steps.len(),
        count_of(result_views(pass.execution.results@), |x: StepResultView| x is Done),
        count_of(result_views(pass.execution.results@), |x: StepResultView| x is Failed),
        pass.plan@.findings.len(),
    );
    proof {
        assert(pass.plan@.steps.len() == pass.plan.steps@.len());
        assert(pass.plan@.findings.len() == pass.plan.findings@.len());
    }
    if trigger == Trigger::Cli {
        let mut record = LogRecord::new(Severity::Info);
        record.add("msg", "reconcile complete");
        assert(record@.fields =~= seq![field("msg"@, "reconcile complete"@)]);
        add_outcome(&mut record, pass);
        assert(record@ =~= expected);
        return record;
    }
    if pass.plan.steps.len() == 0 && pass.plan.findings.len() == 0 {
        let mut record = LogRecord::new(Severity::Debug);
        record.add("msg", "reconcile complete");
        record.add("trigger", trigger.as_str());
        record.add("steps", decimal_text(0).as_str());
        assert(record@.fields =~= expected.fields);
        return record;
    }
    let mut record = LogRecord::new(Severity::Info);
    record.add("msg", "reconcile complete");
    record.add("trigger", trigger.as_str());
    assert(record@.fields =~= seq![
        field("msg"@, "reconcile complete"@),
        field("trigger"@, trigger.text()),
    ]);
    add_outcome(&mut record, pass);
    assert(record@ =~= expected);
    record
}

/// Nothing that is left alone is taken up again by a pass, and what a pass
/// finds deleted is left alone.
pub proof fn law_degraded_groups_stay_degraded(d: DegradedView, notes: Seq<NoteView>)
    ensures
        d.groups.subset_of(degraded_by(d, notes).groups),
        d.sets.subset_of(degraded_by(d, notes).sets),
        forall|i: int|
            0 <= i < notes.len() ==> match #[trigger] notes[i] {
                NoteView::MembershipDeleted { group } => degraded_by(d, notes).groups.contains(
                    group,
                ),
                NoteView::SetRootDeleted { set } => degraded_by(d, notes).sets.contains(set),
                _ => true,
            },
    decreases notes.len(),
{
    if notes.len() > 0 {
        let front = notes.drop_last();
        law_degraded_groups_stay_degraded(d, front);
        assert forall|i: int| 0 <= i < notes.len() implies match #[trigger] notes[i] {
            NoteView::MembershipDeleted { group } => degraded_by(d, notes).groups.contains(group),
            NoteView::SetRootDeleted { set } => degraded_by(d, notes).sets.contains(set),
            _ => true,
        } by {
            if i < front.len() {
                assert(front[i] == notes[i]);
            }
        }
    }
}

/// Nothing is left alone without a cause: a group only where its membership
/// directory was found deleted, a set only where its root was.
pub proof fn law_only_deleted_directories_degrade(
    d: DegradedView,
    notes: Seq<NoteView>,
    group: GroupIdView,
    set: Seq<char>,
)
    ensures
        degraded_by(d, notes).groups.contains(group) <==> d.groups.contains(group)
            || notes.contains(NoteView::MembershipDeleted { group }),
        degraded_by(d, notes).sets.contains(set) <==> d.sets.contains(set) || notes.contains(
            NoteView::SetRootDeleted { set },
        ),
    decreases notes.len(),
{
    let g = NoteView::MembershipDeleted { group };
    let s = NoteView::SetRootDeleted { set };
    if notes.len() > 0 {
        let front = notes.drop_last();
        law_only_deleted_directories_degrade(d, front, group, set);
        assert(notes[notes.len() - 1] == notes.last());
        if front.contains(g) {
            let i = choose|i: int| 0 <= i < front.len() && front[i] == g;
            assert(notes[i] == g);
        }
        if front.contains(s) {
            let i = choose|i: int| 0 <= i < front.len() && front[i] == s;
            assert(notes[i] == s);
        }
        if notes.contains(g) && notes.last() != g {
            let i = choose|i: int| 0 <= i < notes.len() && notes[i] == g;
            assert(front[i] == g);
        }
        if notes.contains(s) && notes.last() != s {
            let i = choose|i: int| 0 <= i < notes.len() && notes[i] == s;
            assert(front[i] == s);
        }
    } else {
        assert(!notes.contains(g) && !notes.contains(s));
    }
}

/// The end of a pass is logged with what it came to: how many steps there were,
/// how many were completed and failed, and how many findings there were. Only a
/// pass of the daemon that had nothing to do and nothing to tell is kept to the
/// debug log.
pub proof fn law_completions_are_logged(
    trigger: Trigger,
    steps: nat,
    completed: nat,
    failed: nat,
    findings: nat,
)
    ensures
        ({
            let log = completion_record(trigger, steps, completed, failed, findings);
            &&& log.severity == Severity::Debug <==> trigger != Trigger::Cli && steps == 0
                && findings == 0
            &&& log.severity != Severity::Debug ==> log.severity == Severity::Info && {
                &&& log.fields.contains(field("steps"@, decimal(steps)))
                &&& log.fields.contains(field("completed"@, decimal(completed)))
                &&& log.fields.contains(field("failed"@, decimal(failed)))
                &&& log.fields.contains(field("findings"@, decimal(findings)))
            }
            &&& trigger != Trigger::Cli ==> log.fields.contains(field("trigger"@, trigger.text()))
        }),
{
    let fields = completion_record(trigger, steps, completed, failed, findings).fields;
    let at: int = if trigger == Trigger::Cli {
        1
    } else {
        2
    };
    if !(trigger != Trigger::Cli && steps == 0 && findings == 0) {
        assert(fields[at] == field("steps"@, decimal(steps)));
        assert(fields[at + 1] == field("completed"@, decimal(completed)));
        assert(fields[at + 2] == field("failed"@, decimal(failed)));
        assert(fields[at + 3] == field("findings"@, decimal(findings)));
    }
    if trigger != Trigger::Cli {
        assert(fields[1] == field("trigger"@, trigger.text()));
    }
}

/// A pass logs what it reports of the entries, then every finding.
pub proof fn law_every_finding_is_logged(
    active: Map<crate::reconcile::NoteKeyView, Seq<char>>,
    o: ObservedView,
    p: PlanView,
    trigger: Trigger,
    i: int,
)
    requires
        0 <= i < p.findings.len(),
    ensures
        ({
            let logs = pass_records(active, o, p, trigger);
            let first = report_records(active, o, trigger);
            &&& logs.len() == first.len() + p.findings.len()
            &&& logs.take(first.len() as int) == first
            &&& logs[first.len() + i] == finding_record(p.findings[i], trigger)
        }),
{
    let first = report_records(active, o, trigger);
    assert(pass_records(active, o, p, trigger).take(first.len() as int) =~= first);
}

} // verus!
