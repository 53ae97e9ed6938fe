//! Executing a reconciliation plan.
//!
//! The executor decides what happens next and keeps the records; the program
//! makes the system calls and writes the state file. [`Executor::next`] takes
//! the reply to the last command and gives the next command, until it gives
//! [`Command::Finished`].
use vstd::prelude::*;
use vstd::string::*;

use crate::config::MountAttrs;
use crate::identity::MountIdentity;
use crate::logging::{field, LogRecord, LogRecordView, Severity};
use crate::mount::VerifiedOpError;
use crate::reconcile::plan::{step_views, Action, ActionView, DesiredMount, DesiredView, DropReason, DropReasonView, LocationView, Plan, StepView, UnmountReason, UnmountReasonView};
use crate::reconcile::{log_record, record_views, Trigger};
use crate::state::{KeyView, MountRecord, RecordKey, RecordView, State};
use crate::timestamp::Timestamp;

verus! {

/// What happened to one step.
#[derive(Debug, PartialEq, Eq)]
pub enum StepResult {
    /// The step completed.
    Done,
    /// The step was not attempted because a dependency did not complete.
    Skipped,
    /// The step failed.
    Failed(String),
}

/// What happened to one step.
#[verifier::ext_equal]
pub enum StepResultView {
    /// The step completed.
    Done,
    /// The step was not attempted.
    Skipped,
    /// The step failed.
    Failed(Seq<char>),
}

impl View for StepResult {
    type V = StepResultView;

    open spec fn view(&self) -> StepResultView {
        match self {
            StepResult::Done => StepResultView::Done,
            StepResult::Skipped => StepResultView::Skipped,
            StepResult::Failed(e) => StepResultView::Failed(e@),
        }
    }
}

/// The views of a list of results.
pub open spec fn result_views(results: Seq<StepResult>) -> Seq<StepResultView> {
    results.map_values(|r: StepResult| r@)
}

/// How many results there are of which `p` holds.
pub open spec fn count_of(results: Seq<StepResultView>, p: spec_fn(StepResultView) -> bool) -> nat {
    results.filter(p).len()
}

/// Results of executing a plan, index-aligned with `plan.steps`.
#[derive(Debug, PartialEq, Eq)]
pub struct Execution {
    /// Per-step results.
    pub results: Vec<StepResult>,
}

impl Default for Execution {
    fn default() -> (r: Self)
        ensures
            r.results@.len() == 0,
    {
        Execution { results: Vec::new() }
    }
}

impl Execution {
    /// Number of failed steps.
    pub fn failures(&self) -> (r: usize)
        ensures
            r == count_of(result_views(self.results@), |x: StepResultView| x is Failed),
    {
        let ghost views = result_views(self.results@);
        let ghost p = |x: StepResultView| x is Failed;
        let mut n: usize = 0;
        let mut i: usize = 0;
        assert(views.take(0).filter(p).len() == 0) by {
            reveal(Seq::filter);
        }
        while i < self.results.len()
            invariant
                i <= self.results@.len(),
                n <= i,
                views == result_views(self.results@),
                p == |x: StepResultView| x is Failed,
                n == views.take(i as int).filter(p).len(),
            decreases self.results@.len() - i,
        {
            proof {
                lemma_filter_step(views, p, i as int);
            }
            if let StepResult::Failed(_) = &self.results[i] {
                n += 1;
            }
            i += 1;
        }
        assert(views.take(views.len() as int) =~= views);
        n
    }

    /// Number of completed steps.
    pub fn completed(&self) -> (r: usize)
        ensures
            r == count_of(result_views(self.results@), |x: StepResultView| x is Done),
    {
        let ghost views = result_views(self.results@);
        let ghost p = |x: StepResultView| x is Done;
        let mut n: usize = 0;
        let mut i: usize = 0;
        assert(views.take(0).filter(p).len() == 0) by {
            reveal(Seq::filter);
        }
        while i < self.results.len()
            invariant
                i <= self.results@.len(),
                n <= i,
                views == result_views(self.results@),
                p == |x: StepResultView| x is Done,
                n == views.take(i as int).filter(p).len(),
            decreases self.results@.len() - i,
        {
            proof {
                lemma_filter_step(views, p, i as int);
            }
            if let StepResult::Done = &self.results[i] {
                n += 1;
            }
            i += 1;
        }
        assert(views.take(views.len() as int) =~= views);
        n
    }
}

proof fn lemma_filter_step<T>(s: Seq<T>, p: spec_fn(T) -> bool, i: int)
    requires
        0 <= i < s.len(),
    ensures
        s.take(i + 1).filter(p).len() == s.take(i).filter(p).len() + (if p(s[i]) {
            1nat
        } else {
            0nat
        }),
{
    reveal(Seq::filter);
    assert(s.take(i + 1).drop_last() =~= s.take(i));
    assert(s.take(i + 1).last() == s[i]);
}

// The state machine.

/// What came of an attempt to mount.
#[derive(Debug)]
pub enum MountOutcome {
    /// A trusted root could not be opened.
    RootFailed(String),
    /// The source could not be resolved.
    SourceFailed(String),
    /// The target could not be created or inspected.
    TargetFailed(String),
    /// A mount is at the target.
    Occupied,
    /// Mounting failed.
    Failed(String),
    /// The mount was made.
    Mounted {
        /// Its identity.
        identity: MountIdentity,
        /// When it was made.
        created_at: Timestamp,
    },
}

/// What came of an attempt to operate on a recorded mount.
#[derive(Debug)]
pub enum VerifiedOutcome {
    /// The trusted root could not be opened.
    RootFailed(String),
    /// The operation did not happen.
    Failed(VerifiedOpError),
    /// The operation was done.
    Done,
}

/// What the program is to do next.
#[derive(Debug, Clone, Copy, PartialEq, Eq)]
pub enum Command {
    /// Nothing; ask for the next command.
    Continue,
    /// Make the mount of the current step.
    Mount,
    /// Unmount the mount of the current step.
    Unmount,
    /// Apply the attributes of the current step.
    Reattr,
    /// Write the state file.
    Save,
    /// Unmount what was just mounted for the current step.
    Rollback(MountIdentity),
    /// Remove the empty target directory of the current step.
    RemoveTarget,
    /// Every step has its result.
    Finished,
}

/// What came of a command.
#[derive(Debug)]
pub enum Reply {
    /// Nothing was to be done.
    Go,
    /// Reply to [`Command::Mount`].
    Mounted(MountOutcome),
    /// Reply to [`Command::Unmount`] and [`Command::Reattr`].
    Operated(VerifiedOutcome),
    /// Reply to [`Command::Save`].
    Saved(Result<(), String>),
    /// Reply to [`Command::Rollback`].
    RolledBack(VerifiedOutcome),
    /// Reply to [`Command::RemoveTarget`].
    Removed(Result<(), String>),
}

/// Where the execution of the current step stands.
#[derive(Debug)]
enum Stage {
    /// The step has not begun.
    Ready,
    /// The action was handed out.
    Acting,
    /// The state file is being written after a mount.
    SavingMount {
        identity: MountIdentity,
        previous: Option<MountRecord>,
    },
    /// The mount is being undone, as it could not be recorded.
    RollingBack(String),
    /// The state file is being written after an unmount.
    SavingUnmount,
    /// The target directory is being removed.
    Removing(Result<(), String>),
    /// The state file is being written after a record was dropped.
    SavingDrop,
    /// The state file is being written after attributes were applied.
    SavingReattr(Option<MountRecord>),
}

/// Where the execution of the current step stands.
#[verifier::ext_equal]
pub enum StageView {
    /// The step has not begun.
    Ready,
    /// The action was handed out.
    Acting,
    /// The state file is being written after a mount.
    SavingMount {
        /// Identity of the new mount.
        identity: MountIdentity,
        /// The record that was replaced.
        previous: Option<RecordView>,
    },
    /// The mount is being undone, as it could not be recorded.
    RollingBack(Seq<char>),
    /// The state file is being written after an unmount.
    SavingUnmount,
    /// The target directory is being removed.
    Removing(Result<(), Seq<char>>),
    /// The state file is being written after a record was dropped.
    SavingDrop,
    /// The state file is being written after attributes were applied.
    SavingReattr(Option<RecordView>),
}

spec fn outcome_view(r: Result<(), String>) -> Result<(), Seq<char>> {
    match r {
        Ok(_) => Ok(()),
        Err(e) => Err(e@),
    }
}

spec fn record_view(r: Option<MountRecord>) -> Option<RecordView> {
    match r {
        Some(record) => Some(record@),
        None => None,
    }
}

impl View for Stage {
    type V = StageView;

    closed spec fn view(&self) -> StageView {
        match self {
            Stage::Ready => StageView::Ready,
            Stage::Acting => StageView::Acting,
            Stage::SavingMount { identity, previous } => StageView::SavingMount {
                identity: *identity,
                previous: record_view(*previous),
            },
            Stage::RollingBack(e) => StageView::RollingBack(e@),
            Stage::SavingUnmount => StageView::SavingUnmount,
            Stage::Removing(r) => StageView::Removing(outcome_view(*r)),
            Stage::SavingDrop => StageView::SavingDrop,
            Stage::SavingReattr(previous) => StageView::SavingReattr(record_view(*previous)),
        }
    }
}

/// How far the execution of a plan has come.
#[verifier::ext_equal]
pub struct ExecutorView {
    /// Results of the steps that are over.
    pub results: Seq<StepResultView>,
    /// Where the current step stands.
    pub stage: StageView,
}

/// What a transition gives.
#[verifier::ext_equal]
pub struct Transition {
    /// How far the execution has come.
    pub executor: ExecutorView,
    /// The records.
    pub state: Map<KeyView, RecordView>,
    /// What the program is to do next.
    pub command: Command,
    /// What is logged.
    pub logs: Seq<LogRecordView>,
}

/// Whether a step may not run: some step that it depends on did not complete.
pub open spec fn is_blocked(step: StepView, results: Seq<StepResultView>) -> bool {
    exists|i: int|
        0 <= i < step.depends_on.len() && !(#[trigger] step.depends_on[i] < results.len()
            && results[step.depends_on[i] as int] is Done)
}

/// The record of a new mount.
pub open spec fn new_record(d: DesiredView, identity: MountIdentity, created_at: i128) -> RecordView {
    RecordView {
        group: d.key.group,
        name: d.key.name,
        source_root: d.source.root,
        source: d.source.path,
        target_root: d.target.root,
        target: d.target.path,
        identity,
        read_only: Some(d.attrs.read_only),
        noexec: Some(d.attrs.noexec),
        nosymfollow: Some(d.attrs.nosymfollow),
        created_at,
    }
}

/// Why a mount was not made.
pub open spec fn mount_error(d: DesiredView, outcome: MountOutcome) -> Seq<char> {
    match outcome {
        MountOutcome::RootFailed(e) => e@,
        MountOutcome::SourceFailed(e) => "source "@ + d.source.text() + ": "@ + e@,
        MountOutcome::TargetFailed(e) => "target "@ + d.target.text() + ": "@ + e@,
        MountOutcome::Occupied => "target "@ + d.target.text()
            + " became occupied by another mount"@,
        MountOutcome::Failed(e) => e@,
        MountOutcome::Mounted { identity, created_at } => Seq::empty(),
    }
}

/// Why a recorded mount was not operated on.
pub open spec fn operation_error(verb: Seq<char>, outcome: VerifiedOutcome) -> Seq<char> {
    match outcome {
        VerifiedOutcome::RootFailed(e) => e@,
        VerifiedOutcome::Failed(VerifiedOpError::Io(e)) => e@,
        VerifiedOutcome::Failed(e) => "refusing to "@ + verb + ": "@ + e@.text(),
        VerifiedOutcome::Done => Seq::empty(),
    }
}

/// Why a mount that was made does not stay: it could not be recorded.
pub open spec fn rollback_error(error: Seq<char>, outcome: VerifiedOutcome) -> Seq<char> {
    match outcome {
        VerifiedOutcome::RootFailed(e) => e@,
        VerifiedOutcome::Failed(e) => error + "; rollback unmount also failed: "@ + e@.text(),
        VerifiedOutcome::Done => error + "; mount rolled back"@,
    }
}

/// Why the state file was not written.
pub open spec fn save_error(saved: Result<(), String>) -> Result<(), Seq<char>> {
    match saved {
        Ok(_) => Ok(()),
        Err(e) => Err("cannot write state file: "@ + e@),
    }
}

/// A record with other attributes.
pub open spec fn with_attrs(record: RecordView, attrs: MountAttrs) -> RecordView {
    RecordView {
        read_only: Some(attrs.read_only),
        noexec: Some(attrs.noexec),
        nosymfollow: Some(attrs.nosymfollow),
        ..record
    }
}

/// The records with one of them put back as it was.
pub open spec fn restored(
    state: Map<KeyView, RecordView>,
    key: KeyView,
    previous: Option<RecordView>,
) -> Map<KeyView, RecordView> {
    match previous {
        Some(record) => state.insert(key, record),
        None => state.remove(key),
    }
}

/// The record of a member, if there is one.
pub open spec fn recorded(state: Map<KeyView, RecordView>, key: KeyView) -> Option<RecordView> {
    if state.contains_key(key) {
        Some(state[key])
    } else {
        None
    }
}

/// The end of a step.
pub open spec fn finished(
    x: ExecutorView,
    state: Map<KeyView, RecordView>,
    action: ActionView,
    result: Result<(), Seq<char>>,
    trigger: Trigger,
    logs: Seq<LogRecordView>,
) -> Transition {
    Transition {
        executor: ExecutorView {
            results: x.results.push(
                match result {
                    Ok(_) => StepResultView::Done,
                    Err(e) => StepResultView::Failed(e),
                },
            ),
            stage: StageView::Ready,
        },
        state,
        command: Command::Continue,
        logs: logs.push(outcome_record(action, result, trigger)),
    }
}

/// A command within a step.
pub open spec fn ordered(
    x: ExecutorView,
    stage: StageView,
    state: Map<KeyView, RecordView>,
    command: Command,
) -> Transition {
    Transition {
        executor: ExecutorView { results: x.results, stage },
        state,
        command,
        logs: Seq::empty(),
    }
}

/// The beginning of a step, or the end of the plan.
pub open spec fn begin(
    steps: Seq<StepView>,
    x: ExecutorView,
    state: Map<KeyView, RecordView>,
    trigger: Trigger,
) -> Transition {
    if x.results.len() >= steps.len() {
        ordered(x, StageView::Ready, state, Command::Finished)
    } else {
        let step = steps[x.results.len() as int];
        if is_blocked(step, x.results) {
            Transition {
                executor: ExecutorView {
                    results: x.results.push(StepResultView::Skipped),
                    stage: StageView::Ready,
                },
                state,
                command: Command::Continue,
                logs: seq![skipped_record(step.action, trigger)],
            }
        } else {
            match step.action {
                ActionView::Mount { .. } => ordered(x, StageView::Acting, state, Command::Mount),
                ActionView::Unmount { .. } => ordered(
                    x,
                    StageView::Acting,
                    state,
                    Command::Unmount,
                ),
                ActionView::Reattr { .. } => ordered(x, StageView::Acting, state, Command::Reattr),
                ActionView::DropRecord { record, .. } => ordered(
                    x,
                    StageView::SavingDrop,
                    state.remove(record.key()),
                    Command::Save,
                ),
            }
        }
    }
}

/// What follows from a reply.
pub open spec fn transition(
    steps: Seq<StepView>,
    x: ExecutorView,
    state: Map<KeyView, RecordView>,
    reply: Reply,
    trigger: Trigger,
) -> Transition {
    let action = steps[x.results.len() as int].action;
    match (x.stage, reply) {
        (StageView::Acting, Reply::Mounted(outcome)) => {
            let d = action->desired;
            match outcome {
                MountOutcome::Mounted { identity, created_at } => ordered(
                    x,
                    StageView::SavingMount { identity, previous: recorded(state, d.key) },
                    state.insert(d.key, new_record(d, identity, created_at@)),
                    Command::Save,
                ),
                _ => finished(
                    x,
                    state,
                    action,
                    Err(mount_error(d, outcome)),
                    trigger,
                    Seq::empty(),
                ),
            }
        },
        (StageView::Acting, Reply::Operated(outcome)) => match (action, outcome) {
            (ActionView::Unmount { record, .. }, VerifiedOutcome::Done) => ordered(
                x,
                StageView::SavingUnmount,
                state.remove(record.key()),
                Command::Save,
            ),
            (ActionView::Reattr { record, attrs }, VerifiedOutcome::Done) => ordered(
                x,
                StageView::SavingReattr(recorded(state, record.key())),
                state.insert(record.key(), with_attrs(record, attrs)),
                Command::Save,
            ),
            (ActionView::Reattr { .. }, _) => finished(
                x,
                state,
                action,
                Err(operation_error("change attributes"@, outcome)),
                trigger,
                Seq::empty(),
            ),
            _ => finished(
                x,
                state,
                action,
                Err(operation_error("unmount"@, outcome)),
                trigger,
                Seq::empty(),
            ),
        },
        (StageView::SavingMount { identity, previous }, Reply::Saved(saved)) => match save_error(
            saved,
        ) {
            Ok(_) => finished(x, state, action, Ok(()), trigger, Seq::empty()),
            Err(e) => ordered(
                x,
                StageView::RollingBack(e),
                restored(state, action->desired.key, previous),
                Command::Rollback(identity),
            ),
        },
        (StageView::RollingBack(error), Reply::RolledBack(outcome)) => finished(
            x,
            state,
            action,
            Err(rollback_error(error, outcome)),
            trigger,
            Seq::empty(),
        ),
        (StageView::SavingUnmount, Reply::Saved(saved)) => ordered(
            x,
            StageView::Removing(save_error(saved)),
            state,
            Command::RemoveTarget,
        ),
        (StageView::Removing(result), Reply::Removed(removed)) => finished(
            x,
            state,
            action,
            result,
            trigger,
            match removed {
                Ok(_) => Seq::empty(),
                Err(e) => seq![removal_record(action, e@)],
            },
        ),
        (StageView::SavingDrop, Reply::Saved(saved)) => finished(
            x,
            state,
            action,
            save_error(saved),
            trigger,
            Seq::empty(),
        ),
        (StageView::SavingReattr(previous), Reply::Saved(saved)) => finished(
            x,
            match save_error(saved) {
                Ok(_) => state,
                Err(_) => restored(state, action.key(), previous),
            },
            action,
            save_error(saved),
            trigger,
            Seq::empty(),
        ),
        _ => begin(steps, x, state, trigger),
    }
}

/// Whether a reply answers the command that was given.
pub open spec fn answers(x: ExecutorView, action: ActionView, reply: Reply) -> bool {
    match x.stage {
        StageView::Ready => reply is Go,
        StageView::Acting => match action {
            ActionView::Mount { .. } => reply is Mounted,
            _ => reply is Operated,
        },
        StageView::SavingMount { .. } => reply is Saved,
        StageView::RollingBack(_) => reply is RolledBack,
        StageView::SavingUnmount => reply is Saved,
        StageView::Removing(_) => reply is Removed,
        StageView::SavingDrop => reply is Saved,
        StageView::SavingReattr(_) => reply is Saved,
    }
}

/// Whether the stage fits the current step.
pub open spec fn in_step(steps: Seq<StepView>, x: ExecutorView) -> bool {
    let n = x.results.len();
    let action = steps[n as int].action;
    match x.stage {
        StageView::Ready => n <= steps.len(),
        StageView::Acting => n < steps.len() && !(action is DropRecord),
        StageView::SavingMount { .. } => n < steps.len() && action is Mount,
        StageView::RollingBack(_) => n < steps.len() && action is Mount,
        StageView::SavingUnmount => n < steps.len() && action is Unmount,
        StageView::Removing(_) => n < steps.len() && action is Unmount,
        StageView::SavingDrop => n < steps.len() && action is DropRecord,
        StageView::SavingReattr(_) => n < steps.len() && action is Reattr,
    }
}

// What is logged.

/// What is said of an unmount.
pub open spec fn unmount_reason(reason: UnmountReasonView) -> Seq<char> {
    match reason {
        UnmountReasonView::NotMember => "member removed"@,
        UnmountReasonView::Relocated => "member location changed"@,
        UnmountReasonView::SourceGone(e) => "source unavailable: "@ + e,
        UnmountReasonView::SourceChanged => "source directory replaced"@,
        UnmountReasonView::TargetCollision => "target collides with another member"@,
        UnmountReasonView::AttributesRelaxed => "configured mount attributes changed"@,
        UnmountReasonView::AttributesChanged => "configured mount attributes changed"@,
    }
}

/// What is said of a record that is dropped.
pub open spec fn drop_reason(reason: DropReasonView) -> Seq<char> {
    match reason {
        DropReasonView::MountGone => "nothing mounted at recorded target"@,
        DropReasonView::ForeignMountAtTarget =>
            "a different mount is at the recorded target; not touching it"@,
        DropReasonView::SourceUnavailable(e) => "source unavailable: "@ + e,
    }
}

impl ActionView {
    /// The name of the operation.
    pub open spec fn op(self) -> Seq<char> {
        match self {
            ActionView::Unmount { .. } => "unmount"@,
            ActionView::DropRecord { .. } => "drop_record"@,
            ActionView::Reattr { .. } => "reattr"@,
            ActionView::Mount { .. } => "mount"@,
        }
    }

    /// The target of the action.
    pub open spec fn target(self) -> LocationView {
        match self {
            ActionView::Unmount { record, .. } => record.target_location(),
            ActionView::DropRecord { record, .. } => record.target_location(),
            ActionView::Reattr { record, .. } => record.target_location(),
            ActionView::Mount { desired } => desired.target,
        }
    }

    /// The source of the action, where it is logged.
    pub open spec fn logged_source(self, done: bool) -> Option<LocationView> {
        match self {
            ActionView::Unmount { record, .. } if done => Some(record.source_location()),
            ActionView::Mount { desired } => Some(desired.source),
            _ => None,
        }
    }

    /// The reason of the action, where there is one.
    pub open spec fn reason(self) -> Option<Seq<char>> {
        match self {
            ActionView::Unmount { reason, .. } => Some(unmount_reason(reason)),
            ActionView::DropRecord { reason, .. } => Some(drop_reason(reason)),
            _ => None,
        }
    }
}

/// What is logged of a step that was run.
pub open spec fn outcome_record(
    action: ActionView,
    result: Result<(), Seq<char>>,
    trigger: Trigger,
) -> LogRecordView {
    let head = seq![
        field("op"@, action.op()),
        field("group"@, action.key().group.text()),
        field("name"@, action.key().name),
    ];
    let sourced = match action.logged_source(result is Ok) {
        Some(source) => head.push(field("source"@, source.text())),
        None => head,
    };
    let placed = sourced.push(field("target"@, action.target().text())).push(
        field("trigger"@, trigger.text()),
    ).push(
        field(
            "result"@,
            if result is Ok {
                "ok"@
            } else {
                "failed"@
            },
        ),
    );
    let reasoned = match action.reason() {
        Some(reason) => placed.push(field("reason"@, reason)),
        None => placed,
    };
    match result {
        Ok(_) => log_record(
            if action is DropRecord {
                Severity::Warn
            } else {
                Severity::Info
            },
            reasoned,
        ),
        Err(e) => log_record(Severity::Error, reasoned.push(field("error"@, e))),
    }
}

/// What is logged of a step that was not run.
pub open spec fn skipped_record(action: ActionView, trigger: Trigger) -> LogRecordView {
    log_record(
        Severity::Warn,
        seq![
            field("op"@, action.op()),
            field("group"@, action.key().group.text()),
            field("name"@, action.key().name),
            field("target"@, action.target().text()),
            field("trigger"@, trigger.text()),
            field("result"@, "skipped"@),
            field("reason"@, "a prerequisite step did not complete"@),
        ],
    )
}

/// What is logged of a target directory that stays.
pub open spec fn removal_record(action: ActionView, error: Seq<char>) -> LogRecordView {
    log_record(
        Severity::Warn,
        seq![
            field("target"@, action.target().text()),
            field("error"@, error),
            field("msg"@, "could not remove target directory"@),
        ],
    )
}

fn after(prefix: &str, text: &str) -> (r: String)
    ensures
        r@ == prefix@ + text@,
{
    let mut out = String::new();
    out.append(prefix);
    out.append(text);
    assert(out@ =~= prefix@ + text@);
    out
}

fn describe_unmount(reason: &UnmountReason) -> (r: String)
    ensures
        r@ == unmount_reason(reason@),
{
    match reason {
        UnmountReason::NotMember => "member removed".to_owned(),
        UnmountReason::Relocated => "member location changed".to_owned(),
        UnmountReason::SourceGone(e) => after("source unavailable: ", e.as_str()),
        UnmountReason::SourceChanged => "source directory replaced".to_owned(),
        UnmountReason::TargetCollision => "target collides with another member".to_owned(),
        UnmountReason::AttributesRelaxed => "configured mount attributes changed".to_owned(),
        UnmountReason::AttributesChanged => "configured mount attributes changed".to_owned(),
    }
}

fn describe_drop(reason: &DropReason) -> (r: String)
    ensures
        r@ == drop_reason(reason@),
{
    match reason {
        DropReason::MountGone => "nothing mounted at recorded target".to_owned(),
        DropReason::ForeignMountAtTarget =>
            "a different mount is at the recorded target; not touching it".to_owned(),
        DropReason::SourceUnavailable(e) => after("source unavailable: ", e.as_str()),
    }
}

impl Action {
    /// The member that the action is about.
    pub fn key(&self) -> (r: RecordKey)
        ensures
            r@ == self@.key(),
    {
        match self {
            Action::Unmount { record, .. } => record.key(),
            Action::DropRecord { record, .. } => record.key(),
            Action::Reattr { record, .. } => record.key(),
            Action::Mount { desired } => desired.key.clone(),
        }
    }

    /// The name of the operation.
    pub fn op(&self) -> (r: &'static str)
        ensures
            r@ == self@.op(),
    {
        match self {
            Action::Unmount { .. } => "unmount",
            Action::DropRecord { .. } => "drop_record",
            Action::Reattr { .. } => "reattr",
            Action::Mount { .. } => "mount",
        }
    }

    /// The target of the action.
    pub fn target(&self) -> (r: crate::reconcile::plan::Location)
        ensures
            r@ == self@.target(),
    {
        match self {
            Action::Unmount { record, .. } => record.target_location(),
            Action::DropRecord { record, .. } => record.target_location(),
            Action::Reattr { record, .. } => record.target_location(),
            Action::Mount { desired } => desired.target.clone(),
        }
    }
}

fn log_outcome(action: &Action, result: &Result<(), String>, trigger: Trigger) -> (r: LogRecord)
    ensures
        r@ == outcome_record(action@, outcome_view(*result), trigger),
{
    let key = action.key();
    let ok = result.is_ok();
    let severity = match (action, result) {
        (_, Err(_)) => Severity::Error,
        (Action::DropRecord { .. }, Ok(_)) => Severity::Warn,
        (_, Ok(_)) => Severity::Info,
    };
    let mut r = LogRecord::new(severity);
    r.add("op", action.op());
    r.add("group", key.group.text().as_str());
    r.add("name", key.name.as_str());
    assert(r@.fields =~= seq![
        field("op"@, action@.op()),
        field("group"@, action@.key().group.text()),
        field("name"@, action@.key().name),
    ]);
    match action {
        Action::Unmount { record, .. } => {
            if ok {
                r.add("source", record.source_location().text().as_str());
            }
        },
        Action::Mount { desired } => {
            r.add("source", desired.source.text().as_str());
        },
        _ => {},
    }
    r.add("target", action.target().text().as_str());
    r.add("trigger", trigger.as_str());
    r.add(
        "result",
        if ok {
            "ok"
        } else {
            "failed"
        },
    );
    match action {
        Action::Unmount { reason, .. } => {
            r.add("reason", describe_unmount(reason).as_str());
        },
        Action::DropRecord { reason, .. } => {
            r.add("reason", describe_drop(reason).as_str());
        },
        _ => {},
    }
    if let Err(e) = result {
        r.add("error", e.as_str());
    }
    r
}

fn log_skipped(action: &Action, trigger: Trigger) -> (r: LogRecord)
    ensures
        r@ == skipped_record(action@, trigger),
{
    let key = action.key();
    let mut r = LogRecord::new(Severity::Warn);
    r.add("op", action.op());
    r.add("group", key.group.text().as_str());
    r.add("name", key.name.as_str());
    r.add("target", action.target().text().as_str());
    r.add("trigger", trigger.as_str());
    r.add("result", "skipped");
    r.add("reason", "a prerequisite step did not complete");
    assert(r@.fields =~= skipped_record(action@, trigger).fields);
    r
}

fn log_removal(action: &Action, error: &str) -> (r: LogRecord)
    ensures
        r@ == removal_record(action@, error@),
{
    let mut r = LogRecord::new(Severity::Warn);
    r.add("target", action.target().text().as_str());
    r.add("error", error);
    r.add("msg", "could not remove target directory");
    assert(r@.fields =~= removal_record(action@, error@).fields);
    r
}

// The executor.

/// Executes a plan.
#[derive(Debug)]
pub struct Executor<'a> {
    plan: &'a Plan,
    trigger: Trigger,
    results: Vec<StepResult>,
    stage: Stage,
}

impl<'a> View for Executor<'a> {
    type V = ExecutorView;

    closed spec fn view(&self) -> ExecutorView {
        ExecutorView { results: result_views(self.results@), stage: self.stage@ }
    }
}

fn is_step_blocked(depends_on: &Vec<usize>, results: &Vec<StepResult>) -> (r: bool)
    ensures
        r == exists|i: int|
            0 <= i < depends_on@.len() && !(#[trigger] depends_on@[i] < results@.len()
                && result_views(results@)[depends_on@[i] as int] is Done),
{
    let ghost views = result_views(results@);
    let mut i: usize = 0;
    while i < depends_on.len()
        invariant
            i <= depends_on@.len(),
            views == result_views(results@),
            forall|j: int|
                0 <= j < i ==> (#[trigger] depends_on@[j] < results@.len()
                    && views[depends_on@[j] as int] is Done),
        decreases depends_on@.len() - i,
    {
        let d: usize = depends_on[i];
        assert(depends_on@[i as int] == d);
        if d >= results.len() {
            return true;
        }
        assert(views[d as int] == results@[d as int]@);
        match &results[d] {
            StepResult::Done => {},
            _ => {
                return true;
            },
        }
        i += 1;
    }
    false
}

fn mount_failure(d: &DesiredMount, outcome: MountOutcome) -> (r: String)
    requires
        !(outcome is Mounted),
    ensures
        r@ == mount_error(d@, outcome),
{
    match outcome {
        MountOutcome::RootFailed(e) => e,
        MountOutcome::SourceFailed(e) => {
            let mut out = after("source ", d.source.text().as_str());
            out.append(": ");
            out.append(e.as_str());
            out
        },
        MountOutcome::TargetFailed(e) => {
            let mut out = after("target ", d.target.text().as_str());
            out.append(": ");
            out.append(e.as_str());
            out
        },
        MountOutcome::Occupied => {
            let mut out = after("target ", d.target.text().as_str());
            out.append(" became occupied by another mount");
            out
        },
        MountOutcome::Failed(e) => e,
        MountOutcome::Mounted { .. } => String::new(),
    }
}

fn operation_failure(verb: &str, outcome: VerifiedOutcome) -> (r: String)
    requires
        !(outcome is Done),
    ensures
        r@ == operation_error(verb@, outcome),
{
    match outcome {
        VerifiedOutcome::RootFailed(e) => e,
        VerifiedOutcome::Failed(VerifiedOpError::Io(e)) => e,
        VerifiedOutcome::Failed(e) => {
            let mut out = after("refusing to ", verb);
            out.append(": ");
            out.append(e.message().as_str());
            out
        },
        VerifiedOutcome::Done => String::new(),
    }
}

fn rollback_failure(error: &str, outcome: VerifiedOutcome) -> (r: String)
    ensures
        r@ == rollback_error(error@, outcome),
{
    match outcome {
        VerifiedOutcome::RootFailed(e) => e,
        VerifiedOutcome::Failed(e) => {
            let mut out = after(error, "; rollback unmount also failed: ");
            out.append(e.message().as_str());
            out
        },
        VerifiedOutcome::Done => after(error, "; mount rolled back"),
    }
}

fn saved_outcome(saved: Result<(), String>) -> (r: Result<(), String>)
    ensures
        outcome_view(r) == save_error(saved),
{
    match saved {
        Ok(_) => Ok(()),
        Err(e) => Err(after("cannot write state file: ", e.as_str())),
    }
}

fn record_of(d: &DesiredMount, identity: MountIdentity, created_at: Timestamp) -> (r: MountRecord)
    ensures
        r@ == new_record(d@, identity, created_at@),
{
    MountRecord {
        group: d.key.group.clone(),
        name: d.key.name.clone(),
        source_root: d.source.root.clone(),
        source: d.source.path.clone(),
        target_root: d.target.root.clone(),
        target: d.target.path.clone(),
        mnt_id: identity.mnt_id,
        mnt_id_unique: identity.mnt_id_unique,
        root_dev_major: identity.root.dev_major,
        root_dev_minor: identity.root.dev_minor,
        root_ino: identity.root.ino,
        read_only: Some(d.attrs.read_only),
        noexec: Some(d.attrs.noexec),
        nosymfollow: Some(d.attrs.nosymfollow),
        created_at,
    }
}

fn restore(state: &mut State, key: &RecordKey, previous: Option<MountRecord>)
    requires
        previous matches Some(record) ==> record@.key() == key@,
    ensures
        final(state)@ == restored(old(state)@, key@, record_view(previous)),
{
    match previous {
        Some(record) => {
            let _ = state.insert(record);
        },
        None => {
            let _ = state.remove(key);
        },
    }
}

impl<'a> Executor<'a> {
    /// The results are those of the first steps, and the stage fits the
    /// current step.
    #[verifier::type_invariant]
    spec fn wf(&self) -> bool {
        &&& in_step(step_views(self.plan.steps@), self@)
        &&& self.stage matches Stage::SavingMount { previous, .. } ==> (previous matches Some(record)
            ==> record@.key() == step_views(self.plan.steps@)[self.results@.len() as int].action.key())
        &&& self.stage matches Stage::SavingReattr(previous) ==> (previous matches Some(record)
            ==> record@.key() == step_views(self.plan.steps@)[self.results@.len() as int].action.key())
    }

    /// The plan that is executed.
    pub closed spec fn steps(&self) -> Seq<StepView> {
        step_views(self.plan.steps@)
    }

    /// Why the plan is executed.
    pub closed spec fn why(&self) -> Trigger {
        self.trigger
    }

    /// Whether `reply` answers the command that was given last.
    pub open spec fn expects(&self, reply: Reply) -> bool {
        answers(self@, self.steps()[self@.results.len() as int].action, reply)
    }

    /// Begins with a plan. The first reply is [`Reply::Go`].
    pub fn new(plan: &'a Plan, trigger: Trigger) -> (r: Self)
        ensures
            r@ == (ExecutorView { results: Seq::empty(), stage: StageView::Ready }),
            r.steps() == step_views(plan.steps@),
            r.why() == trigger,
    {
        let r = Executor { plan, trigger, results: Vec::new(), stage: Stage::Ready };
        assert(r@.results =~= Seq::<StepResultView>::empty());
        r
    }

    /// The step that is being executed, if any is left.
    pub fn current(&self) -> (r: Option<&'a Action>)
        ensures
            match r {
                Some(action) => self@.results.len() < self.steps().len() && action@
                    == self.steps()[self@.results.len() as int].action,
                None => self@.results.len() >= self.steps().len(),
            },
    {
        assert(result_views(self.results@).len() == self.results@.len());
        if self.results.len() < self.plan.steps.len() {
            assert(step_views(self.plan.steps@)[self.results@.len() as int]
                == self.plan.steps@[self.results@.len() as int]@);
            Some(&self.plan.steps[self.results.len()].action)
        } else {
            None
        }
    }

    /// The results so far.
    pub fn into_execution(self) -> (r: Execution)
        ensures
            result_views(r.results@) == self@.results,
    {
        Execution { results: self.results }
    }

    fn set_stage(&mut self, stage: Stage)
        requires
            in_step(old(self).steps(), ExecutorView { results: old(self)@.results, stage: stage@ }),
            stage matches Stage::SavingMount { previous, .. } ==> (previous matches Some(record)
                ==> record@.key() == old(self).steps()[old(self)@.results.len() as int].action.key()),
            stage matches Stage::SavingReattr(previous) ==> (previous matches Some(record)
                ==> record@.key() == old(self).steps()[old(self)@.results.len() as int].action.key()),
        ensures
            final(self)@ == (ExecutorView { results: old(self)@.results, stage: stage@ }),
            final(self).steps() == old(self).steps(),
            final(self).why() == old(self).why(),
    {
        assert(result_views(self.results@).len() == self.results@.len());
        self.stage = stage;
    }

    fn end_step(&mut self, result: StepResult)
        requires
            old(self)@.results.len() < old(self).steps().len(),
        ensures
            final(self)@ == (ExecutorView {
                results: old(self)@.results.push(result@),
                stage: StageView::Ready,
            }),
            final(self).steps() == old(self).steps(),
            final(self).why() == old(self).why(),
    {
        let ghost before = result_views(self.results@);
        let ghost added = result@;
        assert(before.len() == self.results@.len());
        self.stage = Stage::Ready;
        let mut results: Vec<StepResult> = Vec::new();
        std::mem::swap(&mut results, &mut self.results);
        results.push(result);
        assert(result_views(results@) =~= before.push(added));
        self.results = results;
    }

    fn finish_step(&mut self, action: &Action, result: Result<(), String>, logs: &mut Vec<LogRecord>)
        requires
            old(self)@.results.len() < old(self).steps().len(),
            action@ == old(self).steps()[old(self)@.results.len() as int].action,
        ensures
            ({
                let t = finished(
                    old(self)@,
                    Map::empty(),
                    action@,
                    outcome_view(result),
                    old(self).why(),
                    record_views(old(logs)@),
                );
                &&& final(self)@ == t.executor
                &&& record_views(final(logs)@) == t.logs
            }),
            final(self).steps() == old(self).steps(),
            final(self).why() == old(self).why(),
    {
        let ghost before = record_views(logs@);
        let record = log_outcome(action, &result, self.trigger);
        let ghost added = record@;
        logs.push(record);
        assert(record_views(logs@) =~= before.push(added));
        self.end_step(
            match result {
                Ok(_) => StepResult::Done,
                Err(e) => StepResult::Failed(e),
            },
        );
    }

    fn begin_step(&mut self, state: &mut State, logs: &mut Vec<LogRecord>) -> (r: Command)
        requires
            old(self)@.stage is Ready,
            old(logs)@.len() == 0,
        ensures
            ({
                let t = begin(old(self).steps(), old(self)@, old(state)@, old(self).why());
                &&& final(self)@ == t.executor
                &&& final(state)@ == t.state
                &&& r == t.command
                &&& record_views(final(logs)@) == t.logs
            }),
            final(self).steps() == old(self).steps(),
            final(self).why() == old(self).why(),
    {
        assert(result_views(self.results@).len() == self.results@.len());
        let n: usize = self.results.len();
        if n >= self.plan.steps.len() {
            assert(record_views(logs@) =~= Seq::<LogRecordView>::empty());
            return Command::Finished;
        }
        let step = &self.plan.steps[n];
        assert(step_views(self.plan.steps@)[n as int] == step@);
        if is_step_blocked(&step.depends_on, &self.results) {
            let record = log_skipped(&step.action, self.trigger);
            let ghost added = record@;
            logs.push(record);
            assert(record_views(logs@) =~= seq![added]);
            self.end_step(StepResult::Skipped);
            return Command::Continue;
        }
        assert(record_views(logs@) =~= Seq::<LogRecordView>::empty());
        match &step.action {
            Action::Mount { .. } => {
                self.set_stage(Stage::Acting);
                Command::Mount
            },
            Action::Unmount { .. } => {
                self.set_stage(Stage::Acting);
                Command::Unmount
            },
            Action::Reattr { .. } => {
                self.set_stage(Stage::Acting);
                Command::Reattr
            },
            Action::DropRecord { record, .. } => {
                let _ = state.remove(&record.key());
                self.set_stage(Stage::SavingDrop);
                Command::Save
            },
        }
    }

    /// Takes the reply to the last command and gives the next one, with the
    /// log records of what happened. The records of mounts in `state` are kept
    /// up to date; they are to be written on [`Command::Save`].
    pub fn next(&mut self, state: &mut State, reply: Reply) -> (r: (Command, Vec<LogRecord>))
        requires
            old(self).expects(reply),
        ensures
            ({
                let t = transition(
                    old(self).steps(),
                    old(self)@,
                    old(state)@,
                    reply,
                    old(self).why(),
                );
                &&& final(self)@ == t.executor
                &&& final(state)@ == t.state
                &&& r.0 == t.command
                &&& record_views(r.1@) == t.logs
            }),
            final(self).steps() == old(self).steps(),
            final(self).why() == old(self).why(),
    {
        proof {
            use_type_invariant(&*self);
        }
        let mut logs: Vec<LogRecord> = Vec::new();
        let ghost none = record_views(logs@);
        assert(none =~= Seq::<LogRecordView>::empty());
        let mut stage = Stage::Ready;
        let ghost x0 = self@;
        let ghost steps = self.steps();
        assert(result_views(self.results@).len() == self.results@.len());
        std::mem::swap(&mut stage, &mut self.stage);
        let action = match self.current() {
            Some(action) => action,
            None => {
                let command = self.begin_step(state, &mut logs);
                return (command, logs);
            },
        };
        match (stage, reply) {
            (Stage::Acting, Reply::Mounted(outcome)) => {
                if let Action::Mount { desired } = action {
                    match outcome {
                        MountOutcome::Mounted { identity, created_at } => {
                            let previous = state.insert(record_of(desired, identity, created_at));
                            self.set_stage(Stage::SavingMount { identity, previous });
                            (Command::Save, logs)
                        },
                        outcome => {
                            let e = mount_failure(desired, outcome);
                            self.finish_step(action, Err(e), &mut logs);
                            (Command::Continue, logs)
                        },
                    }
                } else {
                    (Command::Continue, logs)
                }
            },
            (Stage::Acting, Reply::Operated(outcome)) => match (action, outcome) {
                (Action::Unmount { record, .. }, VerifiedOutcome::Done) => {
                    let _ = state.remove(&record.key());
                    self.set_stage(Stage::SavingUnmount);
                    (Command::Save, logs)
                },
                (Action::Reattr { record, attrs }, VerifiedOutcome::Done) => {
                    let mut changed = record.clone();
                    changed.read_only = Some(attrs.read_only);
                    changed.noexec = Some(attrs.noexec);
                    changed.nosymfollow = Some(attrs.nosymfollow);
                    assert(changed@ =~= with_attrs(record@, *attrs));
                    let previous = state.insert(changed);
                    self.set_stage(Stage::SavingReattr(previous));
                    (Command::Save, logs)
                },
                (Action::Reattr { .. }, outcome) => {
                    let e = operation_failure("change attributes", outcome);
                    self.finish_step(action, Err(e), &mut logs);
                    (Command::Continue, logs)
                },
                (_, outcome) => {
                    let e = operation_failure("unmount", outcome);
                    self.finish_step(action, Err(e), &mut logs);
                    (Command::Continue, logs)
                },
            },
            (Stage::SavingMount { identity, previous }, Reply::Saved(saved)) => {
                match saved_outcome(saved) {
                    Ok(_) => {
                        self.finish_step(action, Ok(()), &mut logs);
                        (Command::Continue, logs)
                    },
                    Err(e) => {
                        restore(state, &action.key(), previous);
                        self.set_stage(Stage::RollingBack(e));
                        (Command::Rollback(identity), logs)
                    },
                }
            },
            (Stage::RollingBack(error), Reply::RolledBack(outcome)) => {
                let e = rollback_failure(error.as_str(), outcome);
                self.finish_step(action, Err(e), &mut logs);
                (Command::Continue, logs)
            },
            (Stage::SavingUnmount, Reply::Saved(saved)) => {
                self.set_stage(Stage::Removing(saved_outcome(saved)));
                (Command::RemoveTarget, logs)
            },
            (Stage::Removing(result), Reply::Removed(removed)) => {
                if let Err(e) = removed {
                    let record = log_removal(action, e.as_str());
                    let ghost added = record@;
                    logs.push(record);
                    assert(record_views(logs@) =~= seq![added]);
                }
                self.finish_step(action, result, &mut logs);
                (Command::Continue, logs)
            },
            (Stage::SavingDrop, Reply::Saved(saved)) => {
                self.finish_step(action, saved_outcome(saved), &mut logs);
                (Command::Continue, logs)
            },
            (Stage::SavingReattr(previous), Reply::Saved(saved)) => {
                let result = saved_outcome(saved);
                if result.is_err() {
                    restore(state, &action.key(), previous);
                }
                self.finish_step(action, result, &mut logs);
                (Command::Continue, logs)
            },
            (_, _) => {
                let command = self.begin_step(state, &mut logs);
                (command, logs)
            },
        }
    }
}

// Laws.

/// Whether an execution has kept the order of dependencies so far: every step
/// that completed, and the one under way, had all its dependencies completed.
pub open spec fn orderly(steps: Seq<StepView>, x: ExecutorView) -> bool {
    &&& forall|i: int|
        0 <= i < x.results.len() && x.results[i] is Done ==> !is_blocked(
            #[trigger] steps[i],
            x.results.take(i),
        )
    &&& !(x.stage is Ready) ==> !is_blocked(steps[x.results.len() as int], x.results)
}

/// A plan that has not begun is in order.
pub proof fn law_orderly_at_first(steps: Seq<StepView>)
    ensures
        orderly(steps, ExecutorView { results: Seq::empty(), stage: StageView::Ready }),
{
}

/// A step runs only when every step that it depends on has completed: no reply
/// leads out of the order, and the stage always fits the step.
pub proof fn law_dependencies_complete_first(
    steps: Seq<StepView>,
    x: ExecutorView,
    state: Map<KeyView, RecordView>,
    reply: Reply,
    trigger: Trigger,
)
    requires
        in_step(steps, x),
        answers(x, steps[x.results.len() as int].action, reply),
        orderly(steps, x),
    ensures
        ({
            let t = transition(steps, x, state, reply, trigger);
            &&& in_step(steps, t.executor)
            &&& orderly(steps, t.executor)
            &&& x.results.is_prefix_of(t.executor.results)
            &&& t.command is Finished ==> t.executor.results.len() == steps.len()
        }),
{
    let t = transition(steps, x, state, reply, trigger);
    let n = x.results.len() as int;
    assert(t.executor.results.len() <= n + 1);
    assert forall|i: int|
        0 <= i < t.executor.results.len() && t.executor.results[i] is Done implies !is_blocked(
        #[trigger] steps[i],
        t.executor.results.take(i),
    ) by {
        if i < n {
            assert(t.executor.results.take(i) =~= x.results.take(i));
        } else {
            assert(t.executor.results.take(i) =~= x.results);
        }
    }
    assert(x.results =~= t.executor.results.take(n));
}

/// A step with a dependency that did not complete is skipped, and changes no
/// record.
pub proof fn law_blocked_steps_are_skipped(
    steps: Seq<StepView>,
    x: ExecutorView,
    state: Map<KeyView, RecordView>,
    trigger: Trigger,
)
    requires
        x.stage is Ready,
        x.results.len() < steps.len(),
        is_blocked(steps[x.results.len() as int], x.results),
    ensures
        ({
            let t = transition(steps, x, state, Reply::Go, trigger);
            &&& t.executor.results == x.results.push(StepResultView::Skipped)
            &&& t.state == state
            &&& t.command is Continue
        }),
{
}

/// No mount stays that is not recorded: where the state file cannot be written
/// after a mount, the records are what they were before it, and the mount is
/// undone.
pub proof fn law_unrecorded_mounts_are_undone(
    steps: Seq<StepView>,
    x: ExecutorView,
    state: Map<KeyView, RecordView>,
    identity: MountIdentity,
    created_at: Timestamp,
    error: String,
    trigger: Trigger,
)
    requires
        x.stage is Acting,
        x.results.len() < steps.len(),
        steps[x.results.len() as int].action is Mount,
    ensures
        ({
            let made = transition(
                steps,
                x,
                state,
                Reply::Mounted(MountOutcome::Mounted { identity, created_at }),
                trigger,
            );
            let failed = transition(
                steps,
                made.executor,
                made.state,
                Reply::Saved(Err(error)),
                trigger,
            );
            &&& made.command is Save
            &&& failed.state == state
            &&& failed.command == Command::Rollback(identity)
        }),
{
    let made = transition(
        steps,
        x,
        state,
        Reply::Mounted(MountOutcome::Mounted { identity, created_at }),
        trigger,
    );
    let failed = transition(steps, made.executor, made.state, Reply::Saved(Err(error)), trigger);
    assert(failed.state =~= state);
}

/// Executing a step changes no record but that of its own member.
pub proof fn law_other_records_are_untouched(
    steps: Seq<StepView>,
    x: ExecutorView,
    state: Map<KeyView, RecordView>,
    reply: Reply,
    trigger: Trigger,
    key: KeyView,
)
    requires
        in_step(steps, x),
        answers(x, steps[x.results.len() as int].action, reply),
        x.results.len() < steps.len() ==> key != steps[x.results.len() as int].action.key(),
    ensures
        recorded(transition(steps, x, state, reply, trigger).state, key) == recorded(state, key),
{
}

/// A record disappears only once its mount is unmounted, or was found not to be
/// there: a refused or failed operation leaves the records alone.
pub proof fn law_failed_operations_keep_records(
    steps: Seq<StepView>,
    x: ExecutorView,
    state: Map<KeyView, RecordView>,
    outcome: VerifiedOutcome,
    trigger: Trigger,
)
    requires
        x.stage is Acting,
        !(outcome is Done),
    ensures
        transition(steps, x, state, Reply::Operated(outcome), trigger).state == state,
{
}

/// A mount that was made is recorded under its member with just what was
/// asked for: both roots and paths, the identity that was read, the attributes
/// one by one, and the time. Once that record is written, the step is done.
pub proof fn law_new_mounts_are_recorded(
    steps: Seq<StepView>,
    x: ExecutorView,
    state: Map<KeyView, RecordView>,
    identity: MountIdentity,
    created_at: Timestamp,
    trigger: Trigger,
)
    requires
        x.stage is Acting,
        x.results.len() < steps.len(),
        steps[x.results.len() as int].action is Mount,
    ensures
        ({
            let d = steps[x.results.len() as int].action->desired;
            let made = transition(
                steps,
                x,
                state,
                Reply::Mounted(MountOutcome::Mounted { identity, created_at }),
                trigger,
            );
            let saved = transition(steps, made.executor, made.state, Reply::Saved(Ok(())), trigger);
            let record = made.state[d.key];
            &&& made.command is Save
            &&& made.executor.results == x.results
            &&& made.state.contains_key(d.key)
            &&& record.group == d.key.group
            &&& record.name == d.key.name
            &&& record.source_root == d.source.root
            &&& record.source == d.source.path
            &&& record.target_root == d.target.root
            &&& record.target == d.target.path
            &&& record.identity.mnt_id == identity.mnt_id
            &&& record.identity.mnt_id_unique == identity.mnt_id_unique
            &&& record.identity.root.dev_major == identity.root.dev_major
            &&& record.identity.root.dev_minor == identity.root.dev_minor
            &&& record.identity.root.ino == identity.root.ino
            &&& record.read_only == Some(d.attrs.read_only)
            &&& record.noexec == Some(d.attrs.noexec)
            &&& record.nosymfollow == Some(d.attrs.nosymfollow)
            &&& record.created_at == created_at@
            &&& saved.state == made.state
            &&& saved.command is Continue
            &&& saved.executor.stage is Ready
            &&& saved.executor.results == x.results.push(StepResultView::Done)
        }),
{
}

/// A step that nothing blocks is begun with its own operation; a record that
/// is to be dropped needs none, and is gone at once.
pub proof fn law_steps_begin_with_their_operation(
    steps: Seq<StepView>,
    x: ExecutorView,
    state: Map<KeyView, RecordView>,
    trigger: Trigger,
)
    requires
        x.stage is Ready,
        x.results.len() < steps.len(),
        forall|k: int|
            0 <= k < steps[x.results.len() as int].depends_on.len() ==> {
                let needed = #[trigger] steps[x.results.len() as int].depends_on[k];
                needed < x.results.len() && x.results[needed as int] is Done
            },
    ensures
        ({
            let t = transition(steps, x, state, Reply::Go, trigger);
            &&& t.executor.results == x.results
            &&& match steps[x.results.len() as int].action {
                ActionView::Mount { desired } => t.command is Mount && t.state == state,
                ActionView::Unmount { record, reason } => t.command is Unmount && t.state == state,
                ActionView::Reattr { record, attrs } => t.command is Reattr && t.state == state,
                ActionView::DropRecord { record, reason } => {
                    let key = KeyView { group: record.group, name: record.name };
                    t.command is Save && !t.state.contains_key(key) && (forall|k: KeyView|
                        k != key ==> (#[trigger] t.state.contains_key(k) <==> state.contains_key(k))
                            && (state.contains_key(k) ==> t.state[k] == state[k]))
                },
            }
        }),
{
    assert(!is_blocked(steps[x.results.len() as int], x.results));
}

/// A plan is over exactly when every step has its result.
pub proof fn law_plans_end_with_their_steps(
    steps: Seq<StepView>,
    x: ExecutorView,
    state: Map<KeyView, RecordView>,
    trigger: Trigger,
)
    requires
        x.stage is Ready,
    ensures
        transition(steps, x, state, Reply::Go, trigger).command is Finished <==> x.results.len()
            >= steps.len(),
{
}

/// A mount that was taken down loses its record; the record is written first,
/// then the target directory is removed, and the step is done. A directory
/// that stays does not fail the step, but a record that cannot be written does.
pub proof fn law_unmounted_members_lose_their_record(
    steps: Seq<StepView>,
    x: ExecutorView,
    state: Map<KeyView, RecordView>,
    saved: Result<(), String>,
    removed: Result<(), String>,
    trigger: Trigger,
)
    requires
        x.stage is Acting,
        x.results.len() < steps.len(),
        steps[x.results.len() as int].action is Unmount,
    ensures
        ({
            let record = steps[x.results.len() as int].action->Unmount_record;
            let key = KeyView { group: record.group, name: record.name };
            let gone = transition(
                steps,
                x,
                state,
                Reply::Operated(VerifiedOutcome::Done),
                trigger,
            );
            let kept = transition(steps, gone.executor, gone.state, Reply::Saved(saved), trigger);
            let over = transition(steps, kept.executor, kept.state, Reply::Removed(removed), trigger);
            &&& gone.command is Save
            &&& gone.state == state.remove(key)
            &&& kept.command is RemoveTarget
            &&& kept.state == gone.state
            &&& over.command is Continue
            &&& over.state == gone.state
            &&& over.executor.stage is Ready
            &&& over.executor.results == x.results.push(
                match saved {
                    Ok(_) => StepResultView::Done,
                    Err(e) => StepResultView::Failed("cannot write state file: "@ + e@),
                },
            )
            &&& over.logs.len() == (if removed is Ok {
                1int
            } else {
                2
            })
        }),
{
}

/// A mount whose attributes were changed keeps its record but for the
/// attributes, which become the ones applied, one by one. If that cannot be
/// written, the records are what they were.
pub proof fn law_changed_attributes_are_recorded(
    steps: Seq<StepView>,
    x: ExecutorView,
    state: Map<KeyView, RecordView>,
    error: String,
    trigger: Trigger,
)
    requires
        x.stage is Acting,
        x.results.len() < steps.len(),
        steps[x.results.len() as int].action is Reattr,
    ensures
        ({
            let action = steps[x.results.len() as int].action;
            let record = action->Reattr_record;
            let attrs = action->attrs;
            let key = KeyView { group: record.group, name: record.name };
            let done = transition(
                steps,
                x,
                state,
                Reply::Operated(VerifiedOutcome::Done),
                trigger,
            );
            let saved = transition(steps, done.executor, done.state, Reply::Saved(Ok(())), trigger);
            let failed = transition(
                steps,
                done.executor,
                done.state,
                Reply::Saved(Err(error)),
                trigger,
            );
            let changed = done.state[key];
            &&& done.command is Save
            &&& done.state.contains_key(key)
            &&& changed.read_only == Some(attrs.read_only)
            &&& changed.noexec == Some(attrs.noexec)
            &&& changed.nosymfollow == Some(attrs.nosymfollow)
            &&& changed.identity == record.identity
            &&& changed.source_root == record.source_root
            &&& changed.source == record.source
            &&& changed.target_root == record.target_root
            &&& changed.target == record.target
            &&& changed.created_at == record.created_at
            &&& saved.state == done.state
            &&& saved.executor.results == x.results.push(StepResultView::Done)
            &&& failed.state == state
            &&& failed.executor.results == x.results.push(
                StepResultView::Failed("cannot write state file: "@ + error@),
            )
        }),
{
    let action = steps[x.results.len() as int].action;
    let done = transition(steps, x, state, Reply::Operated(VerifiedOutcome::Done), trigger);
    let failed = transition(steps, done.executor, done.state, Reply::Saved(Err(error)), trigger);
    assert(failed.state =~= state);
}

/// A dropped record is done with once the records are written.
pub proof fn law_dropped_records_are_written(
    steps: Seq<StepView>,
    x: ExecutorView,
    state: Map<KeyView, RecordView>,
    saved: Result<(), String>,
    trigger: Trigger,
)
    requires
        x.stage is SavingDrop,
        x.results.len() < steps.len(),
    ensures
        ({
            let t = transition(steps, x, state, Reply::Saved(saved), trigger);
            &&& t.state == state
            &&& t.command is Continue
            &&& t.executor.results == x.results.push(
                match saved {
                    Ok(_) => StepResultView::Done,
                    Err(e) => StepResultView::Failed("cannot write state file: "@ + e@),
                },
            )
        }),
{
}

/// A mount that was not made fails its step and changes no record; so does an
/// operation on a recorded mount that was refused or failed.
pub proof fn law_failed_steps_fail(
    steps: Seq<StepView>,
    x: ExecutorView,
    state: Map<KeyView, RecordView>,
    made: MountOutcome,
    done: VerifiedOutcome,
    trigger: Trigger,
)
    requires
        x.results.len() < steps.len(),
        !(made is Mounted),
        !(done is Done),
    ensures
        ({
            let action = steps[x.results.len() as int].action;
            let unmade = transition(steps, x, state, Reply::Mounted(made), trigger);
            let undone = transition(steps, x, state, Reply::Operated(done), trigger);
            &&& x.stage is Acting && action is Mount ==> unmade.state == state
                && unmade.command is Continue && unmade.executor.results.len() == x.results.len()
                + 1 && unmade.executor.results.last() == StepResultView::Failed(
                match made {
                    MountOutcome::SourceFailed(e) => "source "@ + action->desired.source.text()
                        + ": "@ + e@,
                    MountOutcome::TargetFailed(e) => "target "@ + action->desired.target.text()
                        + ": "@ + e@,
                    MountOutcome::Occupied => "target "@ + action->desired.target.text()
                        + " became occupied by another mount"@,
                    MountOutcome::RootFailed(e) => e@,
                    MountOutcome::Failed(e) => e@,
                    _ => arbitrary(),
                },
            )
            &&& x.stage is Acting && (action is Unmount || action is Reattr) ==> undone.state
                == state && undone.command is Continue && undone.executor.results.len()
                == x.results.len() + 1 && undone.executor.results.last() == StepResultView::Failed(
                match done {
                    VerifiedOutcome::RootFailed(e) => e@,
                    VerifiedOutcome::Failed(VerifiedOpError::Io(e)) => e@,
                    VerifiedOutcome::Failed(e) => "refusing to "@ + (if action is Unmount {
                        "unmount"@
                    } else {
                        "change attributes"@
                    }) + ": "@ + e@.text(),
                    VerifiedOutcome::Done => arbitrary(),
                },
            )
        }),
{
}

/// A mount that could not be recorded fails its step, whether or not it could
/// be undone; the failure tells both.
pub proof fn law_rolled_back_steps_fail(
    steps: Seq<StepView>,
    x: ExecutorView,
    state: Map<KeyView, RecordView>,
    error: Seq<char>,
    outcome: VerifiedOutcome,
    trigger: Trigger,
)
    requires
        x.stage == StageView::RollingBack(error),
        x.results.len() < steps.len(),
    ensures
        ({
            let t = transition(steps, x, state, Reply::RolledBack(outcome), trigger);
            &&& t.state == state
            &&& t.executor.results == x.results.push(
                StepResultView::Failed(
                    match outcome {
                        VerifiedOutcome::Done => error + "; mount rolled back"@,
                        VerifiedOutcome::Failed(e) => error + "; rollback unmount also failed: "@
                            + e@.text(),
                        VerifiedOutcome::RootFailed(e) => e@,
                    },
                ),
            )
        }),
{
}

/// The log tells of every step that was run what was done, for whom, where, why
/// the pass ran and how it ended. A failed step is an error and says so; a
/// dropped record is a warning.
pub proof fn law_steps_are_logged(
    action: ActionView,
    result: Result<(), Seq<char>>,
    trigger: Trigger,
)
    ensures
        ({
            let log = outcome_record(action, result, trigger);
            let key = action.key();
            &&& log.severity == (if result is Err {
                Severity::Error
            } else if action is DropRecord {
                Severity::Warn
            } else {
                Severity::Info
            })
            &&& log.fields.len() >= 6
            &&& log.fields[0] == field(
                "op"@,
                match action {
                    ActionView::Mount { .. } => "mount"@,
                    ActionView::Unmount { .. } => "unmount"@,
                    ActionView::Reattr { .. } => "reattr"@,
                    ActionView::DropRecord { .. } => "drop_record"@,
                },
            )
            &&& log.fields[1] == field("group"@, key.group.text())
            &&& log.fields[2] == field("name"@, key.name)
            &&& log.fields.contains(
                field(
                    "target"@,
                    match action {
                        ActionView::Mount { desired } => desired.target,
                        ActionView::Unmount { record, .. } => record.target_location(),
                        ActionView::Reattr { record, .. } => record.target_location(),
                        ActionView::DropRecord { record, .. } => record.target_location(),
                    }.text(),
                ),
            )
            &&& log.fields.contains(field("trigger"@, trigger.text()))
            &&& log.fields.contains(
                field(
                    "result"@,
                    if result is Ok {
                        "ok"@
                    } else {
                        "failed"@
                    },
                ),
            )
            &&& result matches Err(e) ==> log.fields.last() == field("error"@, e)
            &&& action matches ActionView::Mount { desired } ==> log.fields[3] == field(
                "source"@,
                desired.source.text(),
            )
        }),
{
    let fields = outcome_record(action, result, trigger).fields;
    let at: int = if action.logged_source(result is Ok) is Some {
        4
    } else {
        3
    };
    assert(fields[at] == field("target"@, action.target().text()));
    assert(fields[at + 1] == field("trigger"@, trigger.text()));
    assert(fields[at + 2] == field(
        "result"@,
        if result is Ok {
            "ok"@
        } else {
            "failed"@
        },
    ));
}

/// Why a mount goes, or a record, is logged: with what the source failed where
/// it is gone, and in words of its own for each other cause.
pub proof fn law_reasons_are_logged(
    record: RecordView,
    gone: UnmountReasonView,
    dropped: DropReasonView,
    trigger: Trigger,
)
    ensures
        ({
            let logs = outcome_record(
                ActionView::Unmount { record, reason: gone },
                Ok(()),
                trigger,
            ).fields;
            logs.last() == field(
                "reason"@,
                match gone {
                    UnmountReasonView::NotMember => "member removed"@,
                    UnmountReasonView::Relocated => "member location changed"@,
                    UnmountReasonView::SourceGone(e) => "source unavailable: "@ + e,
                    UnmountReasonView::SourceChanged => "source directory replaced"@,
                    UnmountReasonView::TargetCollision => "target collides with another member"@,
                    _ => "configured mount attributes changed"@,
                },
            )
        }),
        ({
            let logs = outcome_record(
                ActionView::DropRecord { record, reason: dropped },
                Ok(()),
                trigger,
            ).fields;
            logs.last() == field(
                "reason"@,
                match dropped {
                    DropReasonView::MountGone => "nothing mounted at recorded target"@,
                    DropReasonView::ForeignMountAtTarget =>
                        "a different mount is at the recorded target; not touching it"@,
                    DropReasonView::SourceUnavailable(e) => "source unavailable: "@ + e,
                },
            )
        }),
{
}

} // verus!
