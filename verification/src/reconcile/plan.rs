//! Pure reconciliation planning.
//!
//! The planner compares desired membership, the state file and kernel
//! observations, and returns the actions to take plus findings to report. It
//! performs no I/O.
//!
//! Execution contract (implemented by the executor):
//!
//! - Steps run in order. Unmounts and record drops come first, then attribute
//!   re-application, then mounts.
//! - A step whose dependency failed or was skipped is skipped.
//! - `Unmount` re-verifies identity on a pinned descriptor before unmounting,
//!   and removes the record only on success.
//! - `Mount` writes (or replaces) the member's record on success.
use vstd::prelude::*;
use vstd::string::*;

use crate::config::{AbsPath, MountAttrs};
use crate::identity::{DevIno, MountIdentity};
use crate::name::GroupId;
use crate::order::{in_order, is_text_before, lemma_text_order, text_before, Key, KeySet, Table};
use crate::path::{lemma_path_order, path_before};
use crate::reconcile::decision::{accepted, accepted_over, arranged, by_key, collisions_over, decide_mount, decide_over, decide_recorded, decide_unrecorded, depart_one, depart_over, departed, departs, execution_order, first_holder, holds_target, insert_by_key, insert_number, is_recorded_at, is_wanted, lacks_attrs, of_phase, planned, positions, relaxed, remount, targets_in_order, tightened, wanted_at, wanted_targets, Departed, Draft, DraftStep, InputView};
use crate::state::{KeyView, MountRecord, RecordKey, RecordView, State};

verus! {

/// A path beneath a trusted root.
#[derive(Debug, PartialEq, Eq, Hash)]
pub struct Location {
    /// Trusted root directory.
    pub root: AbsPath,
    /// Interpolated relative path beneath `root`.
    pub path: String,
}

/// What a location stands for.
#[verifier::ext_equal]
pub struct LocationView {
    /// Trusted root directory.
    pub root: Seq<char>,
    /// Relative path beneath the root.
    pub path: Seq<char>,
}

impl View for Location {
    type V = LocationView;

    open spec fn view(&self) -> LocationView {
        LocationView { root: self.root@, path: self.path@ }
    }
}

impl Clone for Location {
    fn clone(&self) -> (r: Self)
        ensures
            r@ == self@,
    {
        Location { root: self.root.clone(), path: self.path.clone() }
    }
}

impl Key for Location {
    open spec fn before(a: LocationView, b: LocationView) -> bool {
        path_before(a.root, b.root) || (a.root == b.root && text_before(a.path, b.path))
    }

    proof fn lemma_key_order() {
        lemma_path_order();
        lemma_text_order();
        let root = |a: Seq<char>, b: Seq<char>| path_before(a, b);
        let text = |a: Seq<char>, b: Seq<char>| text_before(a, b);
        let f = |a: LocationView, b: LocationView| Self::before(a, b);
        assert forall|a: LocationView| !#[trigger] f(a, a) by {
            assert(!root(a.root, a.root));
            assert(!text(a.path, a.path));
        }
        assert forall|a: LocationView, b: LocationView, c: LocationView| #[trigger] f(a, b)
            && #[trigger] f(b, c) implies f(a, c) by {
            assert(root(a.root, b.root) && root(b.root, c.root) ==> root(a.root, c.root));
            assert(text(a.path, b.path) && text(b.path, c.path) ==> text(a.path, c.path));
        }
        assert forall|a: LocationView, b: LocationView| #[trigger] f(a, b) || a == b || f(b, a) by {
            assert(root(a.root, b.root) || a.root == b.root || root(b.root, a.root));
            assert(text(a.path, b.path) || a.path == b.path || text(b.path, a.path));
        }
    }

    fn is_before(&self, other: &Self) -> (r: bool) {
        self.root.is_before(&other.root) || (self.root.same(&other.root) && is_text_before(
            self.path.as_str(),
            other.path.as_str(),
        ))
    }
}

impl LocationView {
    /// The location as one path.
    pub open spec fn text(self) -> Seq<char> {
        if self.root == seq!['/'] {
            seq!['/'] + self.path
        } else {
            self.root + seq!['/'] + self.path
        }
    }
}

impl Location {
    /// Whether two locations are the same.
    pub fn same(&self, other: &Self) -> (r: bool)
        ensures
            r == (self@ == other@),
    {
        self.root.same(&other.root) && crate::text::same(self.path.as_str(), other.path.as_str())
    }

    /// The location as one path.
    pub fn text(&self) -> (r: String)
        ensures
            r@ == self@.text(),
    {
        let mut out = String::new();
        if !self.root.is_root() {
            out.append(self.root.as_path());
        }
        out.push('/');
        out.append(self.path.as_str());
        assert(out@ =~= self@.text());
        out
    }
}

impl RecordView {
    /// The recorded source location.
    pub open spec fn source_location(self) -> LocationView {
        LocationView { root: self.source_root, path: self.source }
    }

    /// The recorded target location.
    pub open spec fn target_location(self) -> LocationView {
        LocationView { root: self.target_root, path: self.target }
    }
}

impl MountRecord {
    /// The recorded source location.
    pub fn source_location(&self) -> (r: Location)
        ensures
            r@ == self@.source_location(),
    {
        Location { root: self.source_root.clone(), path: self.source.clone() }
    }

    /// The recorded target location.
    pub fn target_location(&self) -> (r: Location)
        ensures
            r@ == self@.target_location(),
    {
        Location { root: self.target_root.clone(), path: self.target.clone() }
    }
}

/// A member that should be mounted.
#[derive(Debug, PartialEq, Eq)]
pub struct DesiredMount {
    /// Group and member.
    pub key: RecordKey,
    /// Where the source is.
    pub source: Location,
    /// Where the view is mounted.
    pub target: Location,
    /// Configured attributes.
    pub attrs: MountAttrs,
}

/// What a desired mount stands for.
#[verifier::ext_equal]
pub struct DesiredView {
    /// Group and member.
    pub key: KeyView,
    /// Where the source is.
    pub source: LocationView,
    /// Where the view is mounted.
    pub target: LocationView,
    /// Configured attributes.
    pub attrs: MountAttrs,
}

impl View for DesiredMount {
    type V = DesiredView;

    open spec fn view(&self) -> DesiredView {
        DesiredView {
            key: self.key@,
            source: self.source@,
            target: self.target@,
            attrs: self.attrs,
        }
    }
}

impl Clone for DesiredMount {
    fn clone(&self) -> (r: Self)
        ensures
            r@ == self@,
    {
        DesiredMount {
            key: self.key.clone(),
            source: self.source.clone(),
            target: self.target.clone(),
            attrs: self.attrs,
        }
    }
}

/// Observed attributes of an attached mount.
#[derive(Debug, Clone, Copy, PartialEq, Eq, Structural)]
pub struct ObservedAttrs {
    /// `ST_RDONLY`.
    pub read_only: bool,
    /// `ST_NOSUID`.
    pub nosuid: bool,
    /// `ST_NODEV`.
    pub nodev: bool,
    /// `ST_NOEXEC`.
    pub noexec: bool,
    /// `ST_NOSYMFOLLOW`.
    pub nosymfollow: bool,
}

/// Whether a mount with the observed attributes enforces everything that
/// `attrs` asks for; `nosuid` and `nodev` are always asked for. Further
/// restrictions (such as those of a read-only source) do no harm.
pub open spec fn enforces(observed: ObservedAttrs, attrs: MountAttrs) -> bool {
    &&& observed.nosuid
    &&& observed.nodev
    &&& attrs.read_only ==> observed.read_only
    &&& attrs.noexec ==> observed.noexec
    &&& attrs.nosymfollow ==> observed.nosymfollow
}

impl ObservedAttrs {
    /// Whether these observed attributes are exactly what `attrs` requires
    /// (with `nosuid` and `nodev` always required).
    pub fn satisfy(&self, attrs: &MountAttrs) -> (r: bool)
        ensures
            r == (self.nosuid && self.nodev && self.read_only == attrs.read_only && self.noexec
                == attrs.noexec && self.nosymfollow == attrs.nosymfollow),
    {
        self.nosuid && self.nodev && self.read_only == attrs.read_only && self.noexec
            == attrs.noexec && self.nosymfollow == attrs.nosymfollow
    }

    /// Whether these observed attributes enforce every restriction that
    /// `attrs` asks for (with `nosuid` and `nodev` always required).
    pub fn enforce(&self, attrs: &MountAttrs) -> (r: bool)
        ensures
            r == enforces(*self, *attrs),
    {
        self.nosuid && self.nodev && (!attrs.read_only || self.read_only) && (!attrs.noexec
            || self.noexec) && (!attrs.nosymfollow || self.nosymfollow)
    }
}

/// What was observed at a member's source.
#[derive(Debug, PartialEq, Eq)]
pub enum SourceState {
    /// The source resolved to a directory with this device and inode.
    Resolved(DevIno),
    /// The source could not be resolved.
    Unavailable(String),
}

/// What a source observation stands for.
#[verifier::ext_equal]
pub enum SourceView {
    /// The source resolved to a directory with this device and inode.
    Resolved(DevIno),
    /// The source could not be resolved.
    Unavailable(Seq<char>),
}

impl View for SourceState {
    type V = SourceView;

    open spec fn view(&self) -> SourceView {
        match self {
            SourceState::Resolved(id) => SourceView::Resolved(*id),
            SourceState::Unavailable(s) => SourceView::Unavailable(s@),
        }
    }
}

impl Clone for SourceState {
    fn clone(&self) -> (r: Self)
        ensures
            r@ == self@,
    {
        match self {
            SourceState::Resolved(id) => SourceState::Resolved(*id),
            SourceState::Unavailable(s) => SourceState::Unavailable(s.clone()),
        }
    }
}

/// What was observed at a target location.
#[derive(Debug, PartialEq, Eq)]
pub enum TargetState {
    /// No mount root at the target (it may not exist yet).
    NotMounted,
    /// A mount root is at the target.
    Mounted {
        /// Its identity.
        identity: MountIdentity,
        /// Its attributes, if they could be read.
        attrs: Option<ObservedAttrs>,
    },
    /// The target could not be inspected (for example, a symlink is in the
    /// way or access was denied).
    Unavailable(String),
}

/// What a target observation stands for.
#[verifier::ext_equal]
pub enum TargetView {
    /// No mount root at the target.
    NotMounted,
    /// A mount root is at the target.
    Mounted {
        /// Its identity.
        identity: MountIdentity,
        /// Its attributes, if they could be read.
        attrs: Option<ObservedAttrs>,
    },
    /// The target could not be inspected.
    Unavailable(Seq<char>),
}

impl View for TargetState {
    type V = TargetView;

    open spec fn view(&self) -> TargetView {
        match self {
            TargetState::NotMounted => TargetView::NotMounted,
            TargetState::Mounted { identity, attrs } => TargetView::Mounted {
                identity: *identity,
                attrs: *attrs,
            },
            TargetState::Unavailable(s) => TargetView::Unavailable(s@),
        }
    }
}

impl Clone for TargetState {
    fn clone(&self) -> (r: Self)
        ensures
            r@ == self@,
    {
        match self {
            TargetState::NotMounted => TargetState::NotMounted,
            TargetState::Mounted { identity, attrs } => TargetState::Mounted {
                identity: *identity,
                attrs: *attrs,
            },
            TargetState::Unavailable(s) => TargetState::Unavailable(s.clone()),
        }
    }
}

/// Kernel observations gathered for planning.
#[derive(Debug, PartialEq, Eq)]
pub struct Observations {
    /// Source state for each desired member.
    pub sources: Table<RecordKey, SourceState>,
    /// Target state for every desired and recorded target location.
    pub targets: Table<Location, TargetState>,
}

impl Default for Observations {
    fn default() -> (r: Self)
        ensures
            r.sources@ == Map::<KeyView, SourceView>::empty(),
            r.targets@ == Map::<LocationView, TargetView>::empty(),
    {
        Observations { sources: Table::new(), targets: Table::new() }
    }
}

/// Inputs to [`plan`].
#[derive(Debug, Clone, Copy)]
pub struct PlanInput<'a> {
    /// Desired mounts across all non-degraded groups.
    pub desired: &'a [DesiredMount],
    /// Current state records.
    pub state: &'a State,
    /// Degraded groups: their records are left untouched.
    pub frozen_groups: &'a KeySet<GroupId>,
    /// Kernel observations.
    pub observations: &'a Observations,
}

/// Why a mount is being removed.
#[derive(Debug, PartialEq, Eq)]
pub enum UnmountReason {
    /// The member is no longer in the group (or the group was removed).
    NotMember,
    /// The member's configured location changed.
    Relocated,
    /// The source can no longer be resolved.
    SourceGone(String),
    /// The source now resolves to a different directory.
    SourceChanged,
    /// The member's target collides with another member's.
    TargetCollision,
    /// A restriction that the mount was made with is no longer configured.
    AttributesRelaxed,
    /// The mount was made without a restriction that is configured now.
    AttributesChanged,
}

/// Why a mount is being removed.
#[verifier::ext_equal]
pub enum UnmountReasonView {
    /// The member is no longer in the group (or the group was removed).
    NotMember,
    /// The member's configured location changed.
    Relocated,
    /// The source can no longer be resolved.
    SourceGone(Seq<char>),
    /// The source now resolves to a different directory.
    SourceChanged,
    /// The member's target collides with another member's.
    TargetCollision,
    /// A restriction that the mount was made with is no longer configured.
    AttributesRelaxed,
    /// The mount was made without a restriction that is configured now.
    AttributesChanged,
}

impl View for UnmountReason {
    type V = UnmountReasonView;

    open spec fn view(&self) -> UnmountReasonView {
        match self {
            UnmountReason::NotMember => UnmountReasonView::NotMember,
            UnmountReason::Relocated => UnmountReasonView::Relocated,
            UnmountReason::SourceGone(s) => UnmountReasonView::SourceGone(s@),
            UnmountReason::SourceChanged => UnmountReasonView::SourceChanged,
            UnmountReason::TargetCollision => UnmountReasonView::TargetCollision,
            UnmountReason::AttributesRelaxed => UnmountReasonView::AttributesRelaxed,
            UnmountReason::AttributesChanged => UnmountReasonView::AttributesChanged,
        }
    }
}

/// Why a record is being dropped without unmounting.
#[derive(Debug, PartialEq, Eq)]
pub enum DropReason {
    /// Nothing is mounted at the recorded target any more.
    MountGone,
    /// A different mount is at the recorded target; it is not ours.
    ForeignMountAtTarget,
    /// Nothing is mounted and the source is unavailable, so it cannot be
    /// re-created.
    SourceUnavailable(String),
}

/// Why a record is being dropped without unmounting.
#[verifier::ext_equal]
pub enum DropReasonView {
    /// Nothing is mounted at the recorded target any more.
    MountGone,
    /// A different mount is at the recorded target; it is not ours.
    ForeignMountAtTarget,
    /// Nothing is mounted and the source is unavailable.
    SourceUnavailable(Seq<char>),
}

impl View for DropReason {
    type V = DropReasonView;

    open spec fn view(&self) -> DropReasonView {
        match self {
            DropReason::MountGone => DropReasonView::MountGone,
            DropReason::ForeignMountAtTarget => DropReasonView::ForeignMountAtTarget,
            DropReason::SourceUnavailable(s) => DropReasonView::SourceUnavailable(s@),
        }
    }
}

/// An action for the executor.
#[allow(inconsistent_fields)]
#[derive(Debug, PartialEq, Eq)]
pub enum Action {
    /// Verify identity and unmount, then remove the record.
    Unmount {
        /// The record being removed.
        record: MountRecord,
        /// Why.
        reason: UnmountReason,
    },
    /// Remove a record without touching the mount table.
    DropRecord {
        /// The record being removed.
        record: MountRecord,
        /// Why.
        reason: DropReason,
    },
    /// Re-apply mount attributes to an existing mount of ours.
    Reattr {
        /// The mount's record.
        record: MountRecord,
        /// Attributes to apply.
        attrs: MountAttrs,
    },
    /// Create a mount and record it.
    Mount {
        /// What to mount.
        desired: DesiredMount,
    },
}

/// What an action stands for.
#[allow(inconsistent_fields)]
#[verifier::ext_equal]
pub enum ActionView {
    /// Verify identity and unmount, then remove the record.
    Unmount {
        /// The record being removed.
        record: RecordView,
        /// Why.
        reason: UnmountReasonView,
    },
    /// Remove a record without touching the mount table.
    DropRecord {
        /// The record being removed.
        record: RecordView,
        /// Why.
        reason: DropReasonView,
    },
    /// Re-apply mount attributes to an existing mount of ours.
    Reattr {
        /// The mount's record.
        record: RecordView,
        /// Attributes to apply.
        attrs: MountAttrs,
    },
    /// Create a mount and record it.
    Mount {
        /// What to mount.
        desired: DesiredView,
    },
}

impl View for Action {
    type V = ActionView;

    open spec fn view(&self) -> ActionView {
        match self {
            Action::Unmount { record, reason } => ActionView::Unmount {
                record: record@,
                reason: reason@,
            },
            Action::DropRecord { record, reason } => ActionView::DropRecord {
                record: record@,
                reason: reason@,
            },
            Action::Reattr { record, attrs } => ActionView::Reattr {
                record: record@,
                attrs: *attrs,
            },
            Action::Mount { desired } => ActionView::Mount { desired: desired@ },
        }
    }
}

impl ActionView {
    /// Unmounts and record drops come first, then attribute re-application,
    /// then mounts.
    pub open spec fn phase(self) -> u8 {
        match self {
            ActionView::Unmount { record, reason } => 0,
            ActionView::DropRecord { record, reason } => 0,
            ActionView::Reattr { record, attrs } => 1,
            ActionView::Mount { desired } => 2,
        }
    }

    /// The member that the action is about.
    pub open spec fn key(self) -> KeyView {
        match self {
            ActionView::Unmount { record, reason } => record.key(),
            ActionView::DropRecord { record, reason } => record.key(),
            ActionView::Reattr { record, attrs } => record.key(),
            ActionView::Mount { desired } => desired.key,
        }
    }
}

impl Action {
    /// The phase in which the action runs.
    pub fn phase(&self) -> (r: u8)
        ensures
            r == self@.phase(),
            r <= 2,
    {
        match self {
            Action::Unmount { .. } => 0,
            Action::DropRecord { .. } => 0,
            Action::Reattr { .. } => 1,
            Action::Mount { .. } => 2,
        }
    }
}

/// A planned action with its dependencies (indices of earlier steps).
#[derive(Debug, PartialEq, Eq)]
pub struct Step {
    /// The action.
    pub action: Action,
    /// Steps that must have succeeded first.
    pub depends_on: Vec<usize>,
}

/// What a step stands for.
#[verifier::ext_equal]
pub struct StepView {
    /// The action.
    pub action: ActionView,
    /// Steps that must have succeeded first.
    pub depends_on: Seq<usize>,
}

impl View for Step {
    type V = StepView;

    open spec fn view(&self) -> StepView {
        StepView { action: self.action@, depends_on: self.depends_on@ }
    }
}

/// Kind of conflict at a target.
#[derive(Debug, Clone, Copy, PartialEq, Eq, Structural)]
pub enum ConflictKind {
    /// A mount not recorded by Byssus is at the target.
    ForeignMount,
    /// The mount at the target is not the one Byssus recorded.
    TargetReplaced,
}

/// Something to report that does not produce an action.
#[derive(Debug, PartialEq, Eq)]
pub enum Finding {
    /// A conflicting mount is at a member's target; it is left alone.
    Conflict {
        /// Member.
        key: RecordKey,
        /// Target.
        target: Location,
        /// Kind.
        kind: ConflictKind,
    },
    /// A member's source is unavailable, so it is not mounted.
    SourceUnavailable {
        /// Member.
        key: RecordKey,
        /// Source.
        source: Location,
        /// Reason.
        reason: String,
    },
    /// A member's target could not be inspected, so nothing is done.
    TargetUnavailable {
        /// Member.
        key: RecordKey,
        /// Target.
        target: Location,
        /// Reason.
        reason: String,
    },
    /// Several members resolve to one target; the listed ones are not mounted.
    TargetCollision {
        /// Target.
        target: Location,
        /// All members resolving to it.
        members: Vec<RecordKey>,
        /// The member kept because it is already mounted there, if any.
        kept: Option<RecordKey>,
    },
    /// A member cannot move to its new location because its existing mount
    /// could not be verified and removed.
    RelocationBlocked {
        /// Member.
        key: RecordKey,
        /// Recorded (old) target.
        old_target: Location,
    },
}

/// What a finding stands for.
#[verifier::ext_equal]
pub enum FindingView {
    /// A conflicting mount is at a member's target; it is left alone.
    Conflict {
        /// Member.
        key: KeyView,
        /// Target.
        target: LocationView,
        /// Kind.
        kind: ConflictKind,
    },
    /// A member's source is unavailable, so it is not mounted.
    SourceUnavailable {
        /// Member.
        key: KeyView,
        /// Source.
        source: LocationView,
        /// Reason.
        reason: Seq<char>,
    },
    /// A member's target could not be inspected, so nothing is done.
    TargetUnavailable {
        /// Member.
        key: KeyView,
        /// Target.
        target: LocationView,
        /// Reason.
        reason: Seq<char>,
    },
    /// Several members resolve to one target.
    TargetCollision {
        /// Target.
        target: LocationView,
        /// All members resolving to it.
        members: Seq<KeyView>,
        /// The member kept because it is already mounted there, if any.
        kept: Option<KeyView>,
    },
    /// A member cannot move to its new location.
    RelocationBlocked {
        /// Member.
        key: KeyView,
        /// Recorded (old) target.
        old_target: LocationView,
    },
}

/// The views of a list of keys.
pub open spec fn key_views(keys: Seq<RecordKey>) -> Seq<KeyView> {
    keys.map_values(|k: RecordKey| k@)
}

impl View for Finding {
    type V = FindingView;

    open spec fn view(&self) -> FindingView {
        match self {
            Finding::Conflict { key, target, kind } => FindingView::Conflict {
                key: key@,
                target: target@,
                kind: *kind,
            },
            Finding::SourceUnavailable { key, source, reason } => FindingView::SourceUnavailable {
                key: key@,
                source: source@,
                reason: reason@,
            },
            Finding::TargetUnavailable { key, target, reason } => FindingView::TargetUnavailable {
                key: key@,
                target: target@,
                reason: reason@,
            },
            Finding::TargetCollision { target, members, kept } => FindingView::TargetCollision {
                target: target@,
                members: key_views(members@),
                kept: match kept {
                    None => None,
                    Some(k) => Some(k@),
                },
            },
            Finding::RelocationBlocked { key, old_target } => FindingView::RelocationBlocked {
                key: key@,
                old_target: old_target@,
            },
        }
    }
}

/// The result of planning.
#[derive(Debug, PartialEq, Eq)]
pub struct Plan {
    /// Ordered steps.
    pub steps: Vec<Step>,
    /// Findings to report.
    pub findings: Vec<Finding>,
}

/// What a plan stands for.
#[verifier::ext_equal]
pub struct PlanView {
    /// Ordered steps.
    pub steps: Seq<StepView>,
    /// Findings to report.
    pub findings: Seq<FindingView>,
}

/// The views of a list of steps.
pub open spec fn step_views(steps: Seq<Step>) -> Seq<StepView> {
    steps.map_values(|s: Step| s@)
}

/// The views of a list of findings.
pub open spec fn finding_views(findings: Seq<Finding>) -> Seq<FindingView> {
    findings.map_values(|f: Finding| f@)
}

impl View for Plan {
    type V = PlanView;

    open spec fn view(&self) -> PlanView {
        PlanView { steps: step_views(self.steps@), findings: finding_views(self.findings@) }
    }
}

impl Default for Plan {
    fn default() -> (r: Self)
        ensures
            r.steps@.len() == 0,
            r.findings@.len() == 0,
    {
        Plan { steps: Vec::new(), findings: Vec::new() }
    }
}

impl Plan {
    /// Whether the plan changes nothing.
    pub fn is_noop(&self) -> (r: bool)
        ensures
            r == (self@.steps.len() == 0),
    {
        self.steps.len() == 0
    }
}

/// The views of a list of desired mounts.
pub open spec fn desired_views(desired: Seq<DesiredMount>) -> Seq<DesiredView> {
    desired.map_values(|d: DesiredMount| d@)
}

impl<'a> View for PlanInput<'a> {
    type V = InputView;

    open spec fn view(&self) -> InputView {
        InputView {
            desired: desired_views(self.desired@),
            state: self.state@,
            frozen: self.frozen_groups@,
            sources: self.observations.sources@,
            targets: self.observations.targets@,
        }
    }
}

/// Actions and findings as they are decided.
struct Builder {
    /// Actions, each with the positions of the earlier ones it needs.
    steps: Vec<(Action, Vec<usize>)>,
    findings: Vec<Finding>,
}

spec fn draft_steps(steps: Seq<(Action, Vec<usize>)>) -> Seq<DraftStep> {
    steps.map_values(|s: (Action, Vec<usize>)| DraftStep { action: s.0@, needs: s.1@ })
}

impl View for Builder {
    type V = Draft;

    closed spec fn view(&self) -> Draft {
        Draft { steps: draft_steps(self.steps@), findings: finding_views(self.findings@) }
    }
}

impl Builder {
    fn push(&mut self, action: Action, needs: Vec<usize>) -> (r: usize)
        ensures
            final(self)@ == old(self)@.act(action@, needs@),
            r == old(self)@.steps.len(),
    {
        let ghost before = draft_steps(self.steps@);
        let ghost added = DraftStep { action: action@, needs: needs@ };
        let id: usize = self.steps.len();
        self.steps.push((action, needs));
        assert(draft_steps(self.steps@) =~= before.push(added));
        id
    }

    fn report(&mut self, finding: Finding)
        ensures
            final(self)@ == old(self)@.report(finding@),
    {
        let ghost before = finding_views(self.findings@);
        let ghost added = finding@;
        self.findings.push(finding);
        assert(finding_views(self.findings@) =~= before.push(added));
    }
}

fn observed_target(input: &PlanInput<'_>, location: &Location) -> (r: TargetState)
    ensures
        r@ == input@.target(location@),
{
    match input.observations.targets.get(location) {
        Some(state) => state.clone(),
        None => TargetState::Unavailable("target was not observed".to_owned()),
    }
}

fn observed_source(input: &PlanInput<'_>, key: &RecordKey) -> (r: SourceState)
    ensures
        r@ == input@.source(key@),
{
    match input.observations.sources.get(key) {
        Some(state) => state.clone(),
        None => SourceState::Unavailable("source was not observed".to_owned()),
    }
}

fn record_matches_desired(record: &MountRecord, desired: &DesiredMount) -> (r: bool)
    ensures
        r == is_recorded_at(record@, desired@),
{
    record.source_root.same(&desired.source.root) && crate::text::same(
        record.source.as_str(),
        desired.source.path.as_str(),
    ) && record.target_root.same(&desired.target.root) && crate::text::same(
        record.target.as_str(),
        desired.target.path.as_str(),
    )
}

/// The views of a list of references to desired mounts.
spec fn ref_views(members: Seq<&DesiredMount>) -> Seq<DesiredView> {
    members.map_values(|d: &DesiredMount| d@)
}

/// The desired mounts of groups that are not frozen, at one target.
fn members_at<'a>(input: &PlanInput<'a>, target: &Location) -> (r: Vec<&'a DesiredMount>)
    ensures
        ref_views(r@) == wanted_at(input@.desired, input@.frozen, target@),
{
    let desired: &'a [DesiredMount] = input.desired;
    let ghost views = input@.desired;
    let mut out: Vec<&'a DesiredMount> = Vec::new();
    let mut i: usize = 0;
    assert(ref_views(out@) =~= Seq::<DesiredView>::empty());
    while i < desired.len()
        invariant
            i <= desired@.len(),
            desired == input.desired,
            views == input@.desired,
            ref_views(out@) == wanted_at(views.take(i as int), input@.frozen, target@),
        decreases desired@.len() - i,
    {
        let d: &'a DesiredMount = &desired[i];
        let ghost before = ref_views(out@);
        proof {
            assert(views.take(i + 1).drop_last() =~= views.take(i as int));
            assert(views.take(i + 1).last() == d@);
        }
        if !input.frozen_groups.contains(&d.key.group) && d.target.same(target) {
            out.push(d);
            assert(ref_views(out@) =~= before.push(d@));
        }
        i += 1;
    }
    assert(views.take(views.len() as int) =~= views);
    out
}

/// The targets of the desired mounts of groups that are not frozen.
fn all_targets(input: &PlanInput<'_>) -> (r: KeySet<Location>)
    ensures
        r@ == wanted_targets(input@.desired, input@.frozen),
{
    let ghost views = input@.desired;
    let mut out: KeySet<Location> = KeySet::new();
    let mut i: usize = 0;
    while i < input.desired.len()
        invariant
            i <= input.desired@.len(),
            views == input@.desired,
            out@ == wanted_targets(views.take(i as int), input@.frozen),
        decreases input.desired@.len() - i,
    {
        let d = &input.desired[i];
        proof {
            assert(views.take(i + 1).drop_last() =~= views.take(i as int));
            assert(views.take(i + 1).last() == d@);
        }
        if !input.frozen_groups.contains(&d.key.group) {
            out.insert(d.target.clone());
        }
        i += 1;
    }
    assert(views.take(views.len() as int) =~= views);
    out
}

/// Where a desired mount belongs among members sorted by key.
proof fn lemma_insert_by_key(members: Seq<DesiredView>, d: DesiredView, at: int)
    requires
        0 <= at <= members.len(),
        forall|i: int| at <= i < members.len() ==> RecordKey::before(d.key, (#[trigger] members[i]).key),
        at == 0 || !RecordKey::before(d.key, members[at - 1].key),
    ensures
        insert_by_key(members, d) == members.insert(at, d),
    decreases members.len(),
{
    if at == members.len() {
        assert(members.insert(at, d) =~= members.push(d));
    } else {
        assert(RecordKey::before(d.key, members[members.len() - 1].key));
        lemma_insert_by_key(members.drop_last(), d, at);
        assert(members.insert(at, d) =~= members.drop_last().insert(at, d).push(members.last()));
    }
}

/// Sorts members by key; equal keys keep their order.
fn sort_by_key<'a>(members: &Vec<&'a DesiredMount>) -> (r: Vec<&'a DesiredMount>)
    ensures
        ref_views(r@) == by_key(ref_views(members@)),
{
    let ghost views = ref_views(members@);
    let mut out: Vec<&'a DesiredMount> = Vec::new();
    let mut i: usize = 0;
    assert(ref_views(out@) =~= Seq::<DesiredView>::empty());
    while i < members.len()
        invariant
            i <= members@.len(),
            views == ref_views(members@),
            ref_views(out@) == by_key(views.take(i as int)),
        decreases members@.len() - i,
    {
        let d: &'a DesiredMount = members[i];
        let ghost sorted = ref_views(out@);
        proof {
            assert(views.take(i + 1).drop_last() =~= views.take(i as int));
            assert(views.take(i + 1).last() == d@);
        }
        let mut at: usize = out.len();
        while at > 0 && d.key.is_before(&out[at - 1].key)
            invariant
                at <= out@.len(),
                sorted == ref_views(out@),
                forall|j: int|
                    at <= j < sorted.len() ==> RecordKey::before(d@.key, (#[trigger] sorted[j]).key),
            decreases at,
        {
            at -= 1;
            assert(sorted[at as int] == out@[at as int]@);
        }
        proof {
            if at > 0 {
                assert(sorted[at - 1] == out@[at - 1]@);
            }
            lemma_insert_by_key(sorted, d@, at as int);
        }
        out.insert(at, d);
        assert(ref_views(out@) =~= sorted.insert(at as int, d@));
        i += 1;
    }
    assert(views.take(views.len() as int) =~= views);
    out
}

/// The first of the members that holds its target already.
fn find_holder<'a>(input: &PlanInput<'_>, members: &Vec<&'a DesiredMount>) -> (r: Option<
    &'a DesiredMount,
>)
    ensures
        match r {
            Some(d) => first_holder(input@, ref_views(members@)) == Some(d@),
            None => first_holder(input@, ref_views(members@)) is None,
        },
{
    let ghost views = ref_views(members@);
    let mut i: usize = 0;
    while i < members.len()
        invariant
            i <= members@.len(),
            views == ref_views(members@),
            first_holder(input@, views.take(i as int)) is None,
        decreases members@.len() - i,
    {
        let d: &'a DesiredMount = members[i];
        proof {
            assert(views.take(i + 1).drop_last() =~= views.take(i as int));
            assert(views.take(i + 1).last() == d@);
        }
        if let Some(record) = input.state.get(&d.key) {
            if record_matches_desired(record, d) {
                if let TargetState::Mounted { identity, .. } = observed_target(input, &d.target) {
                    if identity.matches(&record.identity()) {
                        proof {
                            assert(holds_target(input@, d@));
                            lemma_first_holder_found(input@, views, i + 1);
                        }
                        return Some(d);
                    }
                }
            }
        }
        i += 1;
    }
    assert(views.take(views.len() as int) =~= views);
    None
}

proof fn lemma_first_holder_found(input: InputView, members: Seq<DesiredView>, n: int)
    requires
        0 <= n <= members.len(),
        first_holder(input, members.take(n)) is Some,
    ensures
        first_holder(input, members) == first_holder(input, members.take(n)),
    decreases members.len() - n,
{
    if n < members.len() {
        assert(members.take(n + 1).drop_last() =~= members.take(n));
        lemma_first_holder_found(input, members, n + 1);
    } else {
        assert(members.take(n) =~= members);
    }
}

/// The keys of the members.
fn keys_of(members: &Vec<&DesiredMount>) -> (r: Vec<RecordKey>)
    ensures
        key_views(r@) == ref_views(members@).map_values(|d: DesiredView| d.key),
{
    let mut out: Vec<RecordKey> = Vec::new();
    let mut i: usize = 0;
    while i < members.len()
        invariant
            i <= members@.len(),
            out@.len() == i,
            forall|j: int| 0 <= j < i ==> (#[trigger] out@[j])@ == members@[j]@.key,
        decreases members@.len() - i,
    {
        out.push(members[i].key.clone());
        i += 1;
    }
    assert(key_views(out@) =~= ref_views(members@).map_values(|d: DesiredView| d.key));
    out
}

/// Resolves target collisions: reports them, and returns the desired mounts
/// to process.
fn resolve_collisions<'a>(input: &PlanInput<'a>, b: &mut Builder) -> (r: Table<
    RecordKey,
    &'a DesiredMount,
>)
    requires
        old(b)@.steps.len() == 0,
        old(b)@.findings.len() == 0,
    ensures
        r@ == accepted(input@),
        final(b)@ == (Draft {
            steps: Seq::empty(),
            findings: collisions_over(input@, targets_in_order(input@)),
        }),
{
    let targets = all_targets(input);
    let mut out: Table<RecordKey, &'a DesiredMount> = Table::new();
    let n: usize = targets.len();
    let ghost order = targets_in_order(input@);
    let mut i: usize = 0;
    proof {
        assert(order.take(0) =~= Seq::<LocationView>::empty());
        assert(b@.findings =~= Seq::<FindingView>::empty());
        assert(b@.steps =~= Seq::<DraftStep>::empty());
    }
    while i < n
        invariant
            i <= n,
            n == order.len(),
            order == targets_in_order(input@),
            order == targets.keys(),
            b@.steps == Seq::<DraftStep>::empty(),
            b@.findings == collisions_over(input@, order.take(i as int)),
            out@ == accepted_over(input@, order.take(i as int)),
        decreases n - i,
    {
        let target = targets.at(i);
        proof {
            assert(order.take(i + 1).drop_last() =~= order.take(i as int));
            assert(order.take(i + 1).last() == target@);
        }
        let members = members_at(input, target);
        if members.len() == 1 {
            let d: &'a DesiredMount = members[0];
            assert(ref_views(members@)[0] == d@);
            out.insert(d.key.clone(), d);
        } else {
            let sorted = sort_by_key(&members);
            let kept = find_holder(input, &sorted);
            let kept_key = match kept {
                Some(d) => {
                    out.insert(d.key.clone(), d);
                    Some(d.key.clone())
                },
                None => None,
            };
            b.report(
                Finding::TargetCollision {
                    target: target.clone(),
                    members: keys_of(&sorted),
                    kept: kept_key,
                },
            );
        }
        i += 1;
    }
    assert(order.take(order.len() as int) =~= order);
    out
}

/// Effects of departing records that the members depend on.
struct Departures {
    /// Member key -> the step removing its old record, or `None` if the old
    /// record must be kept (so the member cannot be re-recorded elsewhere).
    old_record_removal: Table<RecordKey, Option<usize>>,
    /// Target locations freed by an unmount in this plan: step and the
    /// identity being removed.
    freed_targets: Table<Location, (usize, MountIdentity)>,
}

spec fn departed_view(b: Builder, d: Departures) -> Departed {
    Departed { draft: b@, removals: d.old_record_removal@, freed: d.freed_targets@ }
}

/// Whether some desired mount of a group that is not frozen has the key.
fn is_wanted_anywhere(input: &PlanInput<'_>, key: &RecordKey) -> (r: bool)
    ensures
        r == is_wanted(input@, key@),
{
    let mut i: usize = 0;
    while i < input.desired.len()
        invariant
            i <= input.desired@.len(),
            forall|j: int|
                0 <= j < i ==> !((#[trigger] input@.desired[j]).key == key@
                    && !input@.frozen.contains(key@.group)),
        decreases input.desired@.len() - i,
    {
        let d = &input.desired[i];
        assert(input@.desired[i as int] == d@);
        if d.key.same(key) && !input.frozen_groups.contains(&d.key.group) {
            return true;
        }
        i += 1;
    }
    false
}

/// Records not desired at their recorded location: rows 10 to 12, which also
/// cover relocations, collisions and removed groups.
fn plan_departing_records(
    input: &PlanInput<'_>,
    desired: &Table<RecordKey, &DesiredMount>,
    b: &mut Builder,
) -> (r: Departures)
    requires
        desired@ == accepted(input@),
        old(b)@ == (Draft {
            steps: Seq::empty(),
            findings: collisions_over(input@, targets_in_order(input@)),
        }),
    ensures
        departed_view(*final(b), r) == departed(input@),
{
    let mut d = Departures { old_record_removal: Table::new(), freed_targets: Table::new() };
    let n: usize = input.state.len();
    let ghost keys = input.state.keys();
    let mut i: usize = 0;
    while i < n
        invariant
            i <= n,
            n == keys.len(),
            keys == input.state.keys(),
            keys == in_order::<RecordKey>(input@.state.dom()),
            desired@ == accepted(input@),
            departed_view(*b, d) == depart_over(input@, keys.take(i as int)),
        decreases n - i,
    {
        let record = input.state.record_at(i);
        proof {
            assert(keys.take(i + 1).drop_last() =~= keys.take(i as int));
            assert(keys.take(i + 1).last() == keys[i as int]);
            assert(input@.state[keys[i as int]] == record@);
        }
        plan_departing_record(input, desired, b, &mut d, record);
        i += 1;
    }
    assert(keys.take(keys.len() as int) =~= keys);
    d
}

/// One record, if it is not desired at its recorded location.
fn plan_departing_record(
    input: &PlanInput<'_>,
    desired: &Table<RecordKey, &DesiredMount>,
    b: &mut Builder,
    d: &mut Departures,
    record: &MountRecord,
)
    requires
        desired@ == accepted(input@),
    ensures
        departed_view(*final(b), *final(d)) == if departs(input@, record@) {
            depart_one(input@, departed_view(*old(b), *old(d)), record@)
        } else {
            departed_view(*old(b), *old(d))
        },
{
    if input.frozen_groups.contains(&record.group) {
        return;
    }
    let key = record.key();
    let desired_here = desired.get(&key);
    if let Some(here) = desired_here {
        if record_matches_desired(record, here) {
            return;
        }
    }
    let location = record.target_location();
    let id: usize = b.steps.len();
    match observed_target(input, &location) {
        TargetState::NotMounted => {
            let _id = b.push(
                Action::DropRecord { record: record.clone(), reason: DropReason::MountGone },
                Vec::new(),
            );
            d.old_record_removal.insert(key, Some(id));
        },
        TargetState::Mounted { identity, .. } => {
            if identity.matches(&record.identity()) {
                let reason = if desired_here.is_some() {
                    UnmountReason::Relocated
                } else if is_wanted_anywhere(input, &key) {
                    UnmountReason::TargetCollision
                } else {
                    UnmountReason::NotMember
                };
                let _id = b.push(
                    Action::Unmount { record: record.clone(), reason },
                    Vec::new(),
                );
                d.freed_targets.insert(location, (id, identity));
                d.old_record_removal.insert(key, Some(id));
            } else {
                let _id = b.push(
                    Action::DropRecord {
                        record: record.clone(),
                        reason: DropReason::ForeignMountAtTarget,
                    },
                    Vec::new(),
                );
                d.old_record_removal.insert(key, Some(id));
            }
        },
        TargetState::Unavailable(reason) => {
            b.report(
                Finding::TargetUnavailable { key: key.clone(), target: location, reason },
            );
            d.old_record_removal.insert(key, None);
        },
    }
}

/// Mounts a member, if its source resolves.
fn plan_mount(
    input: &PlanInput<'_>,
    b: &mut Builder,
    d: &DesiredMount,
    needs: Vec<usize>,
)
    ensures
        final(b)@ == decide_mount(input@, old(b)@, d@, needs@),
{
    match observed_source(input, &d.key) {
        SourceState::Resolved(_) => {
            let _id = b.push(Action::Mount { desired: d.clone() }, needs);
        },
        SourceState::Unavailable(reason) => {
            b.report(
                Finding::SourceUnavailable { key: d.key.clone(), source: d.source.clone(), reason },
            );
        },
    }
}

/// Rows 1 to 3: the member has no record at its desired location.
fn plan_unrecorded_member(
    input: &PlanInput<'_>,
    departures: &Departures,
    b: &mut Builder,
    d: &DesiredMount,
    Ghost(gone): Ghost<Departed>,
)
    requires
        departures.old_record_removal@ == gone.removals,
        departures.freed_targets@ == gone.freed,
    ensures
        final(b)@ == decide_unrecorded(input@, gone, old(b)@, d@),
{
    let mut needs: Vec<usize> = Vec::new();
    assert(needs@ =~= Seq::<usize>::empty());
    match departures.old_record_removal.get(&d.key) {
        None => {},
        Some(Some(id)) => {
            needs.push(*id);
            assert(needs@ =~= seq![*id]);
        },
        Some(None) => {
            let old_target = match input.state.get(&d.key) {
                Some(record) => record.target_location(),
                None => d.target.clone(),
            };
            b.report(Finding::RelocationBlocked { key: d.key.clone(), old_target });
            return;
        },
    }
    match observed_target(input, &d.target) {
        TargetState::NotMounted => {
            plan_mount(input, b, d, needs);
        },
        TargetState::Mounted { identity, .. } => {
            let freed = match departures.freed_targets.get(&d.target) {
                Some((id, removed)) => {
                    if removed.same(&identity) {
                        Some(*id)
                    } else {
                        None
                    }
                },
                None => None,
            };
            match freed {
                Some(id) => {
                    needs.push(id);
                    plan_mount(input, b, d, needs);
                },
                None => {
                    b.report(
                        Finding::Conflict {
                            key: d.key.clone(),
                            target: d.target.clone(),
                            kind: ConflictKind::ForeignMount,
                        },
                    );
                },
            }
        },
        TargetState::Unavailable(reason) => {
            b.report(
                Finding::TargetUnavailable { key: d.key.clone(), target: d.target.clone(), reason },
            );
        },
    }
}

fn is_set(flag: Option<bool>) -> (r: bool)
    ensures
        r == (flag == Some(true)),
{
    match flag {
        Some(b) => b,
        None => false,
    }
}

/// Whether the mount was made with a restriction that is no longer configured.
fn is_relaxed(record: &MountRecord, attrs: &MountAttrs) -> (r: bool)
    ensures
        r == relaxed(record@, *attrs),
{
    (!attrs.read_only && is_set(record.read_only)) || (!attrs.noexec && is_set(record.noexec)) || (
    !attrs.nosymfollow && is_set(record.nosymfollow))
}

fn is_cleared(flag: Option<bool>) -> (r: bool)
    ensures
        r == (flag == Some(false)),
{
    match flag {
        Some(b) => !b,
        None => false,
    }
}

/// Whether the mount was made without a restriction that is configured now.
fn is_tightened(record: &MountRecord, attrs: &MountAttrs) -> (r: bool)
    ensures
        r == tightened(record@, *attrs),
{
    (attrs.read_only && is_cleared(record.read_only)) || (attrs.noexec && is_cleared(record.noexec))
        || (attrs.nosymfollow && is_cleared(record.nosymfollow))
}

/// Whether a mount is seen to lack a configured restriction.
fn is_lacking(observed: &Option<ObservedAttrs>, attrs: &MountAttrs) -> (r: bool)
    ensures
        r == lacks_attrs(*observed, *attrs),
{
    match observed {
        Some(seen) => !seen.enforce(attrs),
        None => false,
    }
}

/// Unmounts, then mounts again.
fn plan_remount(b: &mut Builder, record: &MountRecord, reason: UnmountReason, d: &DesiredMount)
    ensures
        final(b)@ == remount(old(b)@, record@, reason@, d@),
{
    let id: usize = b.push(Action::Unmount { record: record.clone(), reason }, Vec::new());
    let mut needs: Vec<usize> = Vec::new();
    needs.push(id);
    assert(needs@ =~= seq![id]);
    let _id = b.push(Action::Mount { desired: d.clone() }, needs);
}

/// Rows 4 to 9: the member has a record at its desired location.
fn plan_recorded_member(
    input: &PlanInput<'_>,
    b: &mut Builder,
    d: &DesiredMount,
    record: &MountRecord,
)
    ensures
        final(b)@ == decide_recorded(input@, old(b)@, d@, record@),
{
    match observed_target(input, &d.target) {
        TargetState::Mounted { identity, attrs } => {
            if !identity.matches(&record.identity()) {
                // Row 7: something else is mounted at our target.
                b.report(
                    Finding::Conflict {
                        key: d.key.clone(),
                        target: d.target.clone(),
                        kind: ConflictKind::TargetReplaced,
                    },
                );
                return;
            }
            match observed_source(input, &d.key) {
                SourceState::Resolved(root) => {
                    if root == record.identity().root {
                        // Row 4: ours; mend the attributes if needed.
                        if is_relaxed(record, &d.attrs) {
                            plan_remount(b, record, UnmountReason::AttributesRelaxed, d);
                        } else if is_lacking(&attrs, &d.attrs) {
                            let _id = b.push(
                                Action::Reattr { record: record.clone(), attrs: d.attrs },
                                Vec::new(),
                            );
                        } else if is_tightened(record, &d.attrs) {
                            plan_remount(b, record, UnmountReason::AttributesChanged, d);
                        }
                    } else {
                        // Row 5: source replaced; remount.
                        plan_remount(b, record, UnmountReason::SourceChanged, d);
                    }
                },
                SourceState::Unavailable(reason) => {
                    // Row 6: source gone; unmount.
                    let _id = b.push(
                        Action::Unmount {
                            record: record.clone(),
                            reason: UnmountReason::SourceGone(reason),
                        },
                        Vec::new(),
                    );
                },
            }
        },
        TargetState::NotMounted => {
            match observed_source(input, &d.key) {
                SourceState::Resolved(_) => {
                    // Row 8: removed externally; re-create.
                    let _id = b.push(Action::Mount { desired: d.clone() }, Vec::new());
                },
                SourceState::Unavailable(reason) => {
                    // Row 9: cannot re-create; drop the stale record.
                    let _id = b.push(
                        Action::DropRecord {
                            record: record.clone(),
                            reason: DropReason::SourceUnavailable(reason.clone()),
                        },
                        Vec::new(),
                    );
                    b.report(
                        Finding::SourceUnavailable {
                            key: d.key.clone(),
                            source: d.source.clone(),
                            reason,
                        },
                    );
                },
            }
        },
        TargetState::Unavailable(reason) => {
            b.report(
                Finding::TargetUnavailable { key: d.key.clone(), target: d.target.clone(), reason },
            );
        },
    }
}

/// Appends the positions of the draft steps of one phase.
fn push_phase(steps: &Vec<(Action, Vec<usize>)>, phase: u8, order: &mut Vec<usize>)
    ensures
        final(order)@ == old(order)@ + of_phase(
            draft_steps(steps@),
            phase,
            steps@.len(),
        ),
{
    let ghost views = draft_steps(steps@);
    let ghost start = order@;
    let mut i: usize = 0;
    assert(order@ =~= start + of_phase(views, phase, 0));
    while i < steps.len()
        invariant
            i <= steps@.len(),
            views == draft_steps(steps@),
            order@ == start + of_phase(views, phase, i as nat),
        decreases steps@.len() - i,
    {
        assert(views[i as int].action == steps@[i as int].0@);
        if steps[i].0.phase() == phase {
            order.push(i);
        }
        i += 1;
        assert(order@ =~= start + of_phase(views, phase, i as nat));
    }
}

/// Puts a number in its place, once.
fn insert_sorted(sorted: &mut Vec<usize>, x: usize)
    ensures
        final(sorted)@ == insert_number(old(sorted)@, x),
{
    let ghost before = sorted@;
    let mut at: usize = sorted.len();
    while at > 0 && x < sorted[at - 1]
        invariant
            at <= sorted@.len(),
            sorted@ == before,
            forall|j: int| at <= j < before.len() ==> x < #[trigger] before[j],
        decreases at,
    {
        at -= 1;
    }
    proof {
        lemma_insert_number_place(before, x, at as int);
    }
    if at > 0 && sorted[at - 1] == x {
        return;
    }
    sorted.insert(at, x);
}

proof fn lemma_insert_number_place(sorted: Seq<usize>, x: usize, at: int)
    requires
        0 <= at <= sorted.len(),
        forall|j: int| at <= j < sorted.len() ==> x < #[trigger] sorted[j],
        at == 0 || sorted[at - 1] <= x,
    ensures
        insert_number(sorted, x) == if at > 0 && sorted[at - 1] == x {
            sorted
        } else {
            sorted.insert(at, x)
        },
    decreases sorted.len(),
{
    if at == sorted.len() {
        assert(sorted.insert(at, x) =~= sorted.push(x));
    } else {
        assert(x < sorted[sorted.len() - 1]);
        lemma_insert_number_place(sorted.drop_last(), x, at);
        if at > 0 && sorted[at - 1] == x {
            assert(sorted.drop_last().push(sorted.last()) =~= sorted);
        } else {
            assert(sorted.insert(at, x) =~= sorted.drop_last().insert(at, x).push(sorted.last()));
        }
    }
}

/// The positions of the needed steps.
fn positions_of(order: &Vec<usize>, index_of: &Vec<usize>, needs: &Vec<usize>) -> (r: Vec<usize>)
    requires
        forall|j: int| 0 <= j < needs@.len() ==> (#[trigger] needs@[j]) < index_of@.len(),
        forall|id: int|
            0 <= id < index_of@.len() ==> #[trigger] index_of@[id] == order@.index_of(id as usize),
    ensures
        r@ == positions(order@, needs@),
{
    let mut out: Vec<usize> = Vec::new();
    let mut i: usize = 0;
    while i < needs.len()
        invariant
            i <= needs@.len(),
            forall|j: int| 0 <= j < needs@.len() ==> (#[trigger] needs@[j]) < index_of@.len(),
            forall|id: int|
                0 <= id < index_of@.len() ==> #[trigger] index_of@[id] == order@.index_of(
                    id as usize,
                ),
            out@ == positions(order@, needs@.take(i as int)),
        decreases needs@.len() - i,
    {
        proof {
            assert(needs@.take(i + 1).drop_last() =~= needs@.take(i as int));
            assert(needs@.take(i + 1).last() == needs@[i as int]);
            assert(needs@[i as int] < index_of@.len());
        }
        let at: usize = index_of[needs[i]];
        assert(at == order@.index_of(needs@[i as int]) as usize);
        insert_sorted(&mut out, at);
        i += 1;
    }
    assert(needs@.take(needs@.len() as int) =~= needs@);
    out
}

/// Where each draft step stands in the order of execution.
fn invert(order: &Vec<usize>) -> (r: Vec<usize>)
    requires
        order@.no_duplicates(),
        forall|i: int| 0 <= i < order@.len() ==> (#[trigger] order@[i]) < order@.len(),
        forall|id: int| 0 <= id < order@.len() ==> order@.contains(#[trigger] (id as usize)),
    ensures
        r@.len() == order@.len(),
        forall|id: int|
            0 <= id < r@.len() ==> #[trigger] r@[id] == order@.index_of(id as usize),
{
    let mut out: Vec<usize> = Vec::new();
    let n: usize = order.len();
    let mut i: usize = 0;
    while i < n
        invariant
            i <= n,
            n == order@.len(),
            out@.len() == i,
        decreases n - i,
    {
        out.push(0);
        i += 1;
    }
    let mut at: usize = 0;
    while at < n
        invariant
            at <= n,
            n == order@.len(),
            out@.len() == n,
            order@.no_duplicates(),
            forall|i: int| 0 <= i < order@.len() ==> (#[trigger] order@[i]) < order@.len(),
            forall|i: int| 0 <= i < at ==> out@[#[trigger] order@[i] as int] == i,
        decreases n - at,
    {
        let id: usize = order[at];
        assert(id < out@.len());
        let ghost before = out@;
        out.set(id, at);
        proof {
            assert forall|i: int| 0 <= i < at + 1 implies out@[#[trigger] order@[i] as int] == i by {
                if i < at {
                    assert(order@[i] != order@[at as int]);
                    assert(out@[order@[i] as int] == before[order@[i] as int]);
                }
            }
        }
        at += 1;
    }
    proof {
        assert forall|id: int| 0 <= id < out@.len() implies #[trigger] out@[id] == order@.index_of(
            id as usize,
        ) by {
            assert(order@.contains(id as usize));
            let k = order@.index_of(id as usize);
            assert(0 <= k < order@.len() && order@[k] == id as usize);
            assert(out@[order@[k] as int] == k);
        }
    }
    out
}

/// Every need of a draft step is of an earlier one.
spec fn needs_earlier(steps: Seq<DraftStep>) -> bool {
    forall|i: int, j: int|
        0 <= i < steps.len() && 0 <= j < steps[i].needs.len() ==> #[trigger] steps[i].needs[j]
            < steps.len()
}

spec fn slot_view(slot: Option<(Action, Vec<usize>)>) -> Option<DraftStep> {
    match slot {
        Some((action, needs)) => Some(DraftStep { action: action@, needs: needs@ }),
        None => None,
    }
}

/// Orders the draft steps for execution: by phase, otherwise as decided, with
/// dependencies mapped to the final order.
fn finish(b: Builder) -> (r: Plan)
    requires
        needs_earlier(b@.steps),
    ensures
        r@ == arranged(b@),
{
    let Builder { steps, findings } = b;
    let ghost views = draft_steps(steps@);
    let n: usize = steps.len();
    let mut order: Vec<usize> = Vec::new();
    push_phase(&steps, 0, &mut order);
    push_phase(&steps, 1, &mut order);
    push_phase(&steps, 2, &mut order);
    proof {
        assert(order@ =~= execution_order(views));
        crate::reconcile::laws::lemma_execution_order(views);
    }
    let index_of = invert(&order);
    let mut slots: Vec<Option<(Action, Vec<usize>)>> = Vec::new();
    for step in it: steps
        invariant
            slots@.len() == it.index(),
            forall|i: int|
                0 <= i < it.index() ==> #[trigger] slots@[i] == Some(it.seq()[i]),
    {
        slots.push(Some(step));
    }
    let mut out: Vec<Step> = Vec::new();
    let mut at: usize = 0;
    let ghost wanted = arranged(b@).steps;
    assert(step_views(out@) =~= wanted.take(0));
    while at < n
        invariant
            at <= n,
            n == order@.len(),
            n == views.len(),
            n == slots@.len(),
            n == index_of@.len(),
            views == b@.steps,
            order@ == execution_order(views),
            order@.no_duplicates(),
            needs_earlier(views),
            wanted == arranged(b@).steps,
            forall|i: int| 0 <= i < order@.len() ==> (#[trigger] order@[i]) < order@.len(),
            forall|id: int|
                0 <= id < index_of@.len() ==> #[trigger] index_of@[id] == order@.index_of(
                    id as usize,
                ),
            forall|i: int|
                at <= i < n ==> slot_view(slots@[#[trigger] order@[i] as int]) == Some(
                    views[order@[i] as int],
                ),
            step_views(out@) == wanted.take(at as int),
        decreases n - at,
    {
        let id: usize = order[at];
        assert(slot_view(slots@[order@[at as int] as int]) is Some);
        let ghost before = slots@;
        let slot = crate::order::replace_at(&mut slots, id, None);
        if let Some((action, needs)) = slot {
            proof {
                assert(views[id as int].needs == needs@);
                assert forall|j: int| 0 <= j < needs@.len() implies (#[trigger] needs@[j])
                    < index_of@.len() by {
                    assert(views[id as int].needs[j] < views.len());
                }
            }
            let depends_on = positions_of(&order, &index_of, &needs);
            let ghost olds = out@;
            let step = Step { action, depends_on };
            let ghost added = step@;
            out.push(step);
            proof {
                assert(wanted[at as int] == added);
                assert(step_views(out@) =~= step_views(olds).push(added));
                assert(wanted.take(at + 1) =~= wanted.take(at as int).push(added));
            }
        }
        proof {
            assert forall|i: int| at + 1 <= i < n implies slot_view(
                slots@[#[trigger] order@[i] as int],
            ) == Some(views[order@[i] as int]) by {
                assert(order@[i] != order@[at as int]);
                assert(slots@[order@[i] as int] == before[order@[i] as int]);
            }
        }
        at += 1;
    }
    assert(wanted.take(wanted.len() as int) =~= wanted);
    Plan { steps: out, findings }
}

/// Plans reconciliation. See the module documentation for the execution
/// contract.
pub fn plan(input: PlanInput<'_>) -> (r: Plan)
    ensures
        r@ == planned(input@),
        crate::reconcile::laws::plannable(input@),
{
    let mut b = Builder { steps: Vec::new(), findings: Vec::new() };
    let desired = resolve_collisions(&input, &mut b);
    let departures = plan_departing_records(&input, &desired, &mut b);
    let ghost gone = departed(input@);
    let n: usize = desired.len();
    let ghost keys = in_order::<RecordKey>(accepted(input@).dom());
    let mut i: usize = 0;
    while i < n
        invariant
            i <= n,
            n == keys.len(),
            keys == desired.keys(),
            keys == in_order::<RecordKey>(accepted(input@).dom()),
            desired@ == accepted(input@),
            gone == departed(input@),
            departures.old_record_removal@ == gone.removals,
            departures.freed_targets@ == gone.freed,
            b@ == decide_over(input@, keys.take(i as int)),
        decreases n - i,
    {
        let key = desired.key_at(i);
        let d: &DesiredMount = desired.value_at(i);
        proof {
            assert(keys.take(i + 1).drop_last() =~= keys.take(i as int));
            assert(keys.take(i + 1).last() == keys[i as int]);
            crate::reconcile::laws::lemma_accepted(input@, keys[i as int]);
        }
        let recorded = match input.state.get(key) {
            Some(record) => {
                if record_matches_desired(record, d) {
                    Some(record)
                } else {
                    None
                }
            },
            None => None,
        };
        match recorded {
            Some(record) => plan_recorded_member(&input, &mut b, d, record),
            None => plan_unrecorded_member(&input, &departures, &mut b, d, Ghost(gone)),
        }
        i += 1;
    }
    let count: usize = b.steps.len();
    check_state(input.state);
    proof {
        assert(keys.take(keys.len() as int) =~= keys);
        assert(b@.steps.len() == count);
        crate::reconcile::laws::lemma_decided(input@);
        assert forall|i: int, j: int|
            0 <= i < b@.steps.len() && 0 <= j
                < b@.steps[i].needs.len() implies #[trigger] b@.steps[i].needs[j]
            < b@.steps.len() by {
            assert(crate::reconcile::laws::sound_step(input@, b@.steps, i));
        }
    }
    finish(b)
}

/// A state has finitely many records, each under its own key.
fn check_state(state: &State)
    ensures
        crate::state::keyed(state@),
        state@.dom().finite(),
{
    let _n: usize = state.len();
    proof {
        use_type_invariant(state);
        vstd::seq_lib::seq_to_set_is_finite(state.keys());
    }
}

/// A location is told as its path behind its root, with one slash between them.
pub proof fn law_locations_are_told_beneath_their_root(location: LocationView)
    requires
        location.root.len() > 0,
        location.root.last() == '/' ==> location.root == seq!['/'],
    ensures
        ({
            let text = location.text();
            let at = text.len() - location.path.len();
            &&& text.skip(at) == location.path
            &&& text[at - 1] == '/'
            &&& text.take(location.root.len() as int) == location.root
            &&& location.root != seq!['/'] ==> at == location.root.len() + 1
            &&& location.root == seq!['/'] ==> at == 1
        }),
{
    let text = location.text();
    assert(text.skip(text.len() - location.path.len()) =~= location.path);
    assert(text.take(location.root.len() as int) =~= location.root);
}

} // verus!
