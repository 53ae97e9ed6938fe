//! From scanned membership and kernel observations to what is planned.
//!
//! The program scans membership directories and inspects the kernel. What
//! follows from that is decided here: [`observe`] turns the outcome of the
//! scans into desired mounts, notes and frozen groups, [`targets_to_inspect`]
//! says which targets have to be looked at, and [`Observed::add_source`] and
//! [`Observed::add_target`] take what was seen.
use vstd::prelude::*;
use vstd::string::*;

use crate::config::{AbsPath, GroupConfig, GroupView};
use crate::identity::DevIno;
use crate::membership::{rejection_views, Membership, RejectReason, RejectReasonView, Rejection, RejectionView};
use crate::name::{valid_name, GroupId, GroupIdView, Name, NameError};
use crate::order::{in_order, KeySet, Table};
use crate::reconcile::decision::InputView;
use crate::reconcile::plan::{desired_views, DesiredMount, DesiredView, Location, LocationView, Observations, SourceState, SourceView, TargetState, TargetView};
use crate::state::{KeyView, RecordKey, RecordView, State};
use crate::template::{bound_template, fits, interpolated, law_names_are_substituted, named, valid_template, InterpolateError};
use crate::text::{join, texts, Texts};

verus! {

/// Something noticed while observing that is reported but not planned.
#[derive(Debug, PartialEq, Eq)]
#[allow(inconsistent_fields)]
pub enum Note {
    /// A membership entry was rejected.
    Rejected {
        /// Group.
        group: GroupId,
        /// The rejection.
        rejection: Rejection,
    },
    /// A member's name could not be interpolated into a template.
    InterpolationFailed {
        /// Group.
        group: GroupId,
        /// Member.
        name: Name,
        /// `source` or `target`.
        field: &'static str,
        /// Why.
        error: InterpolateError,
    },
    /// An entry in a group set's membership root is not a valid group.
    SetEntryRejected {
        /// Set.
        set: Name,
        /// The rejection.
        rejection: Rejection,
    },
    /// A group set's membership root has been deleted; the set is frozen.
    SetRootDeleted {
        /// Set.
        set: Name,
    },
    /// A group set's membership root could not be read; the set is left
    /// unchanged this pass.
    SetRootUnreadable {
        /// Set.
        set: Name,
        /// Why.
        error: String,
    },
    /// The membership directory has been deleted; the group is frozen.
    MembershipDeleted {
        /// Group.
        group: GroupId,
    },
    /// The membership directory could not be read; the group is frozen for
    /// this pass.
    MembershipUnreadable {
        /// Group.
        group: GroupId,
        /// Why.
        error: String,
    },
}

/// What a note stands for.
#[verifier::ext_equal]
#[allow(inconsistent_fields)]
pub enum NoteView {
    /// A membership entry was rejected.
    Rejected {
        /// Group.
        group: GroupIdView,
        /// The rejection.
        rejection: RejectionView,
    },
    /// A member's name could not be interpolated into a template.
    InterpolationFailed {
        /// Group.
        group: GroupIdView,
        /// Member.
        name: Seq<char>,
        /// `source` or `target`.
        field: Seq<char>,
        /// Why.
        error: InterpolateError,
    },
    /// An entry in a group set's membership root is not a valid group.
    SetEntryRejected {
        /// Set.
        set: Seq<char>,
        /// The rejection.
        rejection: RejectionView,
    },
    /// A group set's membership root has been deleted.
    SetRootDeleted {
        /// Set.
        set: Seq<char>,
    },
    /// A group set's membership root could not be read.
    SetRootUnreadable {
        /// Set.
        set: Seq<char>,
        /// Why.
        error: Seq<char>,
    },
    /// The membership directory has been deleted.
    MembershipDeleted {
        /// Group.
        group: GroupIdView,
    },
    /// The membership directory could not be read.
    MembershipUnreadable {
        /// Group.
        group: GroupIdView,
        /// Why.
        error: Seq<char>,
    },
}

impl View for Note {
    type V = NoteView;

    open spec fn view(&self) -> NoteView {
        match self {
            Note::Rejected { group, rejection } => NoteView::Rejected {
                group: group@,
                rejection: rejection@,
            },
            Note::InterpolationFailed { group, name, field, error } => {
                NoteView::InterpolationFailed {
                    group: group@,
                    name: name@,
                    field: field@,
                    error: *error,
                }
            },
            Note::SetEntryRejected { set, rejection } => NoteView::SetEntryRejected {
                set: set@,
                rejection: rejection@,
            },
            Note::SetRootDeleted { set } => NoteView::SetRootDeleted { set: set@ },
            Note::SetRootUnreadable { set, error } => NoteView::SetRootUnreadable {
                set: set@,
                error: error@,
            },
            Note::MembershipDeleted { group } => NoteView::MembershipDeleted { group: group@ },
            Note::MembershipUnreadable { group, error } => NoteView::MembershipUnreadable {
                group: group@,
                error: error@,
            },
        }
    }
}

/// The views of a list of notes.
pub open spec fn note_views(notes: Seq<Note>) -> Seq<NoteView> {
    notes.map_values(|n: Note| n@)
}

/// Everything the planner needs, plus notes for reporting.
#[derive(Debug)]
pub struct Observed {
    /// Desired mounts of groups that were scanned successfully.
    pub desired: Vec<DesiredMount>,
    /// Kernel observations.
    pub observations: Observations,
    /// Groups whose records must not be touched this pass.
    pub frozen: KeySet<GroupId>,
    /// Valid members per scanned group.
    pub members: Table<GroupId, KeySet<Name>>,
    /// Group sets whose membership root was scanned successfully.
    pub scanned_sets: KeySet<Name>,
    /// Hidden membership entries ignored per scanned group.
    pub ignored: Table<GroupId, Texts>,
    /// Notes to report.
    pub notes: Vec<Note>,
}

/// What was observed.
#[verifier::ext_equal]
pub struct ObservedView {
    /// Desired mounts.
    pub desired: Seq<DesiredView>,
    /// Observed sources.
    pub sources: Map<KeyView, SourceView>,
    /// Observed targets.
    pub targets: Map<LocationView, TargetView>,
    /// Groups whose records must not be touched.
    pub frozen: Set<GroupIdView>,
    /// Valid members per scanned group.
    pub members: Map<GroupIdView, Set<Seq<char>>>,
    /// Group sets that were scanned.
    pub scanned_sets: Set<Seq<char>>,
    /// Hidden entries per scanned group.
    pub ignored: Map<GroupIdView, Seq<Seq<char>>>,
    /// Notes to report.
    pub notes: Seq<NoteView>,
}

impl View for Observed {
    type V = ObservedView;

    open spec fn view(&self) -> ObservedView {
        ObservedView {
            desired: desired_views(self.desired@),
            sources: self.observations.sources@,
            targets: self.observations.targets@,
            frozen: self.frozen@,
            members: self.members@,
            scanned_sets: self.scanned_sets@,
            ignored: self.ignored@,
            notes: note_views(self.notes@),
        }
    }
}

impl ObservedView {
    /// Nothing was observed; the groups in `frozen` are not to be touched.
    pub open spec fn nothing(frozen: Set<GroupIdView>) -> ObservedView {
        ObservedView {
            desired: Seq::empty(),
            sources: Map::empty(),
            targets: Map::empty(),
            frozen,
            members: Map::empty(),
            scanned_sets: Set::empty(),
            ignored: Map::empty(),
            notes: Seq::empty(),
        }
    }

    /// What the planner reads, beside the state records.
    pub open spec fn input(self, state: Map<KeyView, RecordView>) -> InputView {
        InputView {
            desired: self.desired,
            state,
            frozen: self.frozen,
            sources: self.sources,
            targets: self.targets,
        }
    }
}

impl Default for Observed {
    fn default() -> (r: Self)
        ensures
            r@ == ObservedView::nothing(Set::empty()),
    {
        let r = Observed {
            desired: Vec::new(),
            observations: Observations::default(),
            frozen: KeySet::new(),
            members: Table::new(),
            scanned_sets: KeySet::new(),
            ignored: Table::new(),
            notes: Vec::new(),
        };
        assert(r@ =~= ObservedView::nothing(Set::empty()));
        r
    }
}

/// What came of scanning a group's membership directory.
#[derive(Debug)]
pub enum Scan {
    /// The directory has been deleted.
    Deleted,
    /// The directory could not be read.
    Unreadable(String),
    /// The directory was read.
    Scanned(Membership),
}

/// What a scan stands for.
pub enum ScanView {
    /// The directory has been deleted.
    Deleted,
    /// The directory could not be read.
    Unreadable(Seq<char>),
    /// The directory was read.
    Scanned {
        /// Valid members.
        members: Set<Seq<char>>,
        /// Rejected entries.
        rejected: Seq<RejectionView>,
    },
}

impl View for Scan {
    type V = ScanView;

    open spec fn view(&self) -> ScanView {
        match self {
            Scan::Deleted => ScanView::Deleted,
            Scan::Unreadable(e) => ScanView::Unreadable(e@),
            Scan::Scanned(m) => ScanView::Scanned {
                members: m.members@,
                rejected: rejection_views(m.rejected@),
            },
        }
    }
}

/// A group and what came of scanning it.
#[derive(Debug)]
pub struct GroupScan<'a> {
    /// The group.
    pub group: GroupId,
    /// The group's configuration.
    pub config: &'a GroupConfig,
    /// What came of the scan.
    pub scan: Scan,
}

/// What a scanned group stands for.
pub struct GroupScanView {
    /// The group.
    pub group: GroupIdView,
    /// The group's configuration.
    pub config: GroupView,
    /// What came of the scan.
    pub scan: ScanView,
}

impl<'a> View for GroupScan<'a> {
    type V = GroupScanView;

    open spec fn view(&self) -> GroupScanView {
        GroupScanView { group: self.group@, config: self.config@, scan: self.scan@ }
    }
}

/// The views of a list of scanned groups.
pub open spec fn scan_views(scans: Seq<GroupScan<'_>>) -> Seq<GroupScanView> {
    scans.map_values(|s: GroupScan<'_>| s@)
}

/// Whether names can be interpolated into a group's templates.
pub open spec fn ready_group(g: GroupView) -> bool {
    bound_template(g.source) && bound_template(g.target)
}

/// Whether an entry was rejected for being hidden.
pub open spec fn is_hidden(r: RejectionView) -> bool {
    r.reason == RejectReasonView::InvalidName(NameError::LeadingDot)
}

/// The names of the hidden entries, in order.
pub open spec fn hidden_of(rejected: Seq<RejectionView>) -> Seq<Seq<char>>
    decreases rejected.len(),
{
    if rejected.len() == 0 {
        Seq::empty()
    } else {
        let front = hidden_of(rejected.drop_last());
        if is_hidden(rejected.last()) {
            front.push(rejected.last().display_name)
        } else {
            front
        }
    }
}

/// The notes on the entries that were rejected for another reason, in order.
pub open spec fn rejection_notes(group: GroupIdView, rejected: Seq<RejectionView>) -> Seq<NoteView>
    decreases rejected.len(),
{
    if rejected.len() == 0 {
        Seq::empty()
    } else {
        let front = rejection_notes(group, rejected.drop_last());
        if is_hidden(rejected.last()) {
            front
        } else {
            front.push(NoteView::Rejected { group, rejection: rejected.last() })
        }
    }
}

/// The mount that a member asks for, or why there can be none: the template
/// that fails first.
pub open spec fn desired_of(group: GroupIdView, config: GroupView, name: Seq<char>) -> Result<
    DesiredView,
    (Seq<char>, InterpolateError),
> {
    match (interpolated(config.source, name), interpolated(config.target, name)) {
        (Ok(source), Ok(target)) => Ok(
            DesiredView {
                key: KeyView { group, name },
                source: LocationView { root: config.source_root, path: join(source, seq!['/']) },
                target: LocationView { root: config.target_root, path: join(target, seq!['/']) },
                attrs: config.attrs,
            },
        ),
        (Err(e), _) => Err(("source"@, e)),
        (_, Err(e)) => Err(("target"@, e)),
    }
}

/// Observing one member.
pub open spec fn observe_member(
    o: ObservedView,
    group: GroupIdView,
    config: GroupView,
    name: Seq<char>,
) -> ObservedView {
    match desired_of(group, config, name) {
        Ok(d) => ObservedView { desired: o.desired.push(d), ..o },
        Err((field, error)) => ObservedView {
            notes: o.notes.push(
                NoteView::InterpolationFailed {
                    group,
                    name,
                    field,
                    error,
                },
            ),
            ..o
        },
    }
}

/// Observing the members among `names`, in order.
pub open spec fn observe_members(
    o: ObservedView,
    group: GroupIdView,
    config: GroupView,
    names: Seq<Seq<char>>,
) -> ObservedView
    decreases names.len(),
{
    if names.len() == 0 {
        o
    } else {
        observe_member(
            observe_members(o, group, config, names.drop_last()),
            group,
            config,
            names.last(),
        )
    }
}

/// Observing one group that is not degraded. A group whose directory is
/// deleted or unreadable is frozen.
pub open spec fn observe_group(
    o: ObservedView,
    group: GroupIdView,
    config: GroupView,
    scan: ScanView,
) -> ObservedView {
    match scan {
        ScanView::Deleted => ObservedView {
            frozen: o.frozen.insert(group),
            notes: o.notes.push(NoteView::MembershipDeleted { group }),
            ..o
        },
        ScanView::Unreadable(error) => ObservedView {
            frozen: o.frozen.insert(group),
            notes: o.notes.push(NoteView::MembershipUnreadable { group, error }),
            ..o
        },
        ScanView::Scanned { members, rejected } => {
            let noted = ObservedView {
                ignored: if hidden_of(rejected).len() == 0 {
                    o.ignored
                } else {
                    o.ignored.insert(group, hidden_of(rejected))
                },
                notes: o.notes + rejection_notes(group, rejected),
                ..o
            };
            let filled = observe_members(noted, group, config, in_order::<Name>(members));
            ObservedView { members: filled.members.insert(group, members), ..filled }
        },
    }
}

/// Observing the groups, in order. Degraded groups are passed over and stay
/// frozen.
pub open spec fn observe_groups(degraded: Set<GroupIdView>, scans: Seq<GroupScanView>) -> ObservedView
    decreases scans.len(),
{
    if scans.len() == 0 {
        ObservedView::nothing(degraded)
    } else {
        let front = observe_groups(degraded, scans.drop_last());
        let last = scans.last();
        if degraded.contains(last.group) {
            front
        } else {
            observe_group(front, last.group, last.config, last.scan)
        }
    }
}

/// A copy of a set of groups.
fn clone_groups(groups: &KeySet<GroupId>) -> (r: KeySet<GroupId>)
    ensures
        r@ == groups@,
{
    let mut out: KeySet<GroupId> = KeySet::new();
    let n: usize = groups.len();
    let ghost keys = groups.keys();
    let mut i: usize = 0;
    assert(out@ =~= keys.take(0).to_set());
    while i < n
        invariant
            i <= n,
            n == keys.len(),
            keys == groups.keys(),
            out@ == keys.take(i as int).to_set(),
        decreases n - i,
    {
        let _ = out.insert(groups.at(i).clone());
        proof {
            let before = keys.take(i as int);
            assert(keys.take(i + 1) =~= before.push(keys[i as int]));
            before.lemma_push_to_set_commute(keys[i as int]);
        }
        i += 1;
    }
    assert(keys.take(keys.len() as int) =~= keys);
    out
}

/// Parts the hidden entries from the others.
fn part_rejected(group: &GroupId, rejected: Vec<Rejection>, notes: &mut Vec<Note>) -> (r: Vec<
    String,
>)
    ensures
        texts(r@) == hidden_of(rejection_views(rejected@)),
        note_views(final(notes)@) == note_views(old(notes)@) + rejection_notes(
            group@,
            rejection_views(rejected@),
        ),
{
    let ghost views = rejection_views(rejected@);
    let ghost n0 = note_views(notes@);
    let mut hidden: Vec<String> = Vec::new();
    assert(texts(hidden@) =~= hidden_of(views.take(0)));
    assert(note_views(notes@) =~= n0 + rejection_notes(group@, views.take(0)));
    for rejection in it: rejected
        invariant
            it.seq() == rejected@,
            views == rejection_views(rejected@),
            texts(hidden@) == hidden_of(views.take(it.index() as int)),
            note_views(notes@) == n0 + rejection_notes(group@, views.take(it.index() as int)),
    {
        let ghost k = it.index() as int;
        let ghost h1 = texts(hidden@);
        let ghost n1 = note_views(notes@);
        proof {
            assert(views.take(k + 1).drop_last() =~= views.take(k));
            assert(views.take(k + 1).last() == rejection@);
        }
        let is_dot = match &rejection.reason {
            RejectReason::InvalidName(NameError::LeadingDot) => true,
            _ => false,
        };
        if is_dot {
            let ghost added = rejection@.display_name;
            hidden.push(rejection.display_name);
            assert(texts(hidden@) =~= h1.push(added));
        } else {
            let note = Note::Rejected { group: group.clone(), rejection };
            let ghost added = note@;
            notes.push(note);
            assert(note_views(notes@) =~= n1.push(added));
        }
        assert(note_views(notes@) =~= n0 + rejection_notes(group@, views.take(k + 1)));
    }
    assert(views.take(views.len() as int) =~= views);
    hidden
}

fn add_member(out: &mut Observed, group: &GroupId, config: &GroupConfig, name: &Name)
    requires
        ready_group(config@),
    ensures
        final(out)@ == observe_member(old(out)@, group@, config@, name@),
{
    let ghost before = out@;
    let (field, error) = match (config.source.interpolate(name), config.target.interpolate(name)) {
        (Ok(source), Ok(target)) => {
            let d = DesiredMount {
                key: RecordKey { group: group.clone(), name: name.clone() },
                source: Location { root: config.source_root.clone(), path: source },
                target: Location { root: config.target_root.clone(), path: target },
                attrs: config.attrs,
            };
            let ghost added = d@;
            out.desired.push(d);
            assert(desired_views(out.desired@) =~= before.desired.push(added));
            assert(out@ =~= observe_member(before, group@, config@, name@));
            return;
        },
        (Err(e), _) => ("source", e),
        (_, Err(e)) => ("target", e),
    };
    let note = Note::InterpolationFailed { group: group.clone(), name: name.clone(), field, error };
    let ghost added = note@;
    out.notes.push(note);
    assert(note_views(out.notes@) =~= before.notes.push(added));
    assert(out@ =~= observe_member(before, group@, config@, name@));
}

pub(crate) fn add_group(out: &mut Observed, group: GroupId, config: &GroupConfig, scan: Scan)
    requires
        ready_group(config@),
    ensures
        final(out)@ == observe_group(old(out)@, group@, config@, scan@),
{
    let ghost before = out@;
    match scan {
        Scan::Deleted => {
            let _ = out.frozen.insert(group.clone());
            let note = Note::MembershipDeleted { group };
            let ghost added = note@;
            out.notes.push(note);
            assert(note_views(out.notes@) =~= before.notes.push(added));
            assert(out@ =~= observe_group(before, group@, config@, scan@));
        },
        Scan::Unreadable(error) => {
            let _ = out.frozen.insert(group.clone());
            let note = Note::MembershipUnreadable { group, error };
            let ghost added = note@;
            out.notes.push(note);
            assert(note_views(out.notes@) =~= before.notes.push(added));
            assert(out@ =~= observe_group(before, group@, config@, scan@));
        },
        Scan::Scanned(membership) => {
            let Membership { members, rejected } = membership;
            let ghost views = rejection_views(rejected@);
            let hidden = part_rejected(&group, rejected, &mut out.notes);
            assert(texts(hidden@).len() == hidden@.len());
            if hidden.len() > 0 {
                let _ = out.ignored.insert(group.clone(), Texts(hidden));
            }
            let ghost noted = out@;
            let ghost names = members.keys();
            let n: usize = members.len();
            let mut i: usize = 0;
            while i < n
                invariant
                    i <= n,
                    n == names.len(),
                    names == members.keys(),
                    ready_group(config@),
                    out@ == observe_members(noted, group@, config@, names.take(i as int)),
                decreases n - i,
            {
                proof {
                    assert(names.take(i + 1).drop_last() =~= names.take(i as int));
                    assert(names.take(i + 1).last() == names[i as int]);
                }
                add_member(out, &group, config, members.at(i));
                i += 1;
            }
            assert(names.take(names.len() as int) =~= names);
            let ghost filled = out@;
            let _ = out.members.insert(group, members);
            assert(out@ =~= observe_group(before, group@, config@, scan@));
        },
    }
}

/// What the scans of the groups give: the mounts that the members ask for,
/// the groups that must be left alone, and what is to be reported. `degraded`
/// groups are passed over and are frozen.
pub fn observe(scans: Vec<GroupScan<'_>>, degraded: &KeySet<GroupId>) -> (r: Observed)
    requires
        forall|i: int| 0 <= i < scans@.len() ==> ready_group((#[trigger] scans@[i]).config@),
    ensures
        r@ == observe_groups(degraded@, scan_views(scans@)),
{
    let ghost views = scan_views(scans@);
    let mut out = Observed { frozen: clone_groups(degraded), ..Observed::default() };
    assert(out@ =~= ObservedView::nothing(degraded@));
    for scanned in it: scans
        invariant
            it.seq() == scans@,
            views == scan_views(scans@),
            forall|i: int| 0 <= i < scans@.len() ==> ready_group((#[trigger] scans@[i]).config@),
            out@ == observe_groups(degraded@, views.take(it.index() as int)),
    {
        let ghost k = it.index() as int;
        proof {
            assert(views.take(k + 1).drop_last() =~= views.take(k));
            assert(views.take(k + 1).last() == scanned@);
            assert(scans@[k] == scanned);
        }
        if !degraded.contains(&scanned.group) {
            add_group(&mut out, scanned.group, scanned.config, scanned.scan);
        }
    }
    assert(views.take(views.len() as int) =~= views);
    out
}

/// What came of resolving a source.
#[derive(Debug)]
pub enum SourceOutcome {
    /// It is a directory with this device and inode.
    Resolved(DevIno),
    /// It could not be resolved.
    Failed(String),
    /// Its root could not be opened.
    RootFailed(String),
}

/// What is known of a source after the attempt to resolve it.
pub open spec fn source_seen(source: LocationView, outcome: SourceOutcome) -> SourceView {
    match outcome {
        SourceOutcome::Resolved(id) => SourceView::Resolved(id),
        SourceOutcome::Failed(e) => SourceView::Unavailable(source.text() + ": "@ + e@),
        SourceOutcome::RootFailed(e) => SourceView::Unavailable(
            "source root "@ + source.root + ": "@ + e@,
        ),
    }
}

/// What came of inspecting a target.
#[derive(Debug)]
pub enum TargetOutcome {
    /// What is there.
    Seen(TargetState),
    /// Its root could not be opened.
    RootFailed(String),
}

/// What is known of a target after the attempt to inspect it.
pub open spec fn target_seen(target: LocationView, outcome: TargetOutcome) -> TargetView {
    match outcome {
        TargetOutcome::Seen(state) => state@,
        TargetOutcome::RootFailed(e) => TargetView::Unavailable(
            "target root "@ + target.root + ": "@ + e@,
        ),
    }
}

fn root_failed(kind: &str, root: &AbsPath, error: &str) -> (r: String)
    ensures
        r@ == kind@ + root@ + ": "@ + error@,
{
    let mut out = String::new();
    out.append(kind);
    out.append(root.as_path());
    out.append(": ");
    out.append(error);
    assert(out@ =~= kind@ + root@ + ": "@ + error@);
    out
}

impl Observed {
    /// Takes what came of resolving the source of a desired mount.
    pub fn add_source(&mut self, index: usize, outcome: SourceOutcome)
        requires
            index < old(self)@.desired.len(),
        ensures
            final(self)@ == (ObservedView {
                sources: old(self)@.sources.insert(
                    old(self)@.desired[index as int].key,
                    source_seen(old(self)@.desired[index as int].source, outcome),
                ),
                ..old(self)@
            }),
    {
        let d = &self.desired[index];
        assert(desired_views(self.desired@)[index as int] == d@);
        let state = match outcome {
            SourceOutcome::Resolved(id) => SourceState::Resolved(id),
            SourceOutcome::Failed(e) => {
                let mut text = d.source.text();
                text.append(": ");
                text.append(e.as_str());
                SourceState::Unavailable(text)
            },
            SourceOutcome::RootFailed(e) => SourceState::Unavailable(
                root_failed("source root ", &d.source.root, e.as_str()),
            ),
        };
        let key = d.key.clone();
        let _ = self.observations.sources.insert(key, state);
    }

    /// Takes what came of inspecting a target.
    pub fn add_target(&mut self, location: &Location, outcome: TargetOutcome)
        ensures
            final(self)@ == (ObservedView {
                targets: old(self)@.targets.insert(location@, target_seen(location@, outcome)),
                ..old(self)@
            }),
    {
        let state = match outcome {
            TargetOutcome::Seen(state) => state,
            TargetOutcome::RootFailed(e) => TargetState::Unavailable(
                root_failed("target root ", &location.root, e.as_str()),
            ),
        };
        let _ = self.observations.targets.insert(location.clone(), state);
    }
}

/// The targets that have to be inspected: every desired target, and every
/// recorded target of a group that is not frozen.
pub open spec fn inspected(o: ObservedView, state: Map<KeyView, RecordView>) -> Set<LocationView> {
    Set::new(
        |t: LocationView|
            {
                ||| exists|i: int| 0 <= i < o.desired.len() && (#[trigger] o.desired[i]).target == t
                ||| exists|k: KeyView|
                    #[trigger] state.contains_key(k) && !o.frozen.contains(state[k].group)
                        && state[k].target_location() == t
            },
    )
}

/// The targets that have to be inspected.
pub fn targets_to_inspect(observed: &Observed, state: &State) -> (r: KeySet<Location>)
    ensures
        r@ == inspected(observed@, state@),
{
    let ghost desired = observed@.desired;
    let mut out: KeySet<Location> = KeySet::new();
    let mut i: usize = 0;
    while i < observed.desired.len()
        invariant
            i <= observed.desired@.len(),
            desired == desired_views(observed.desired@),
            forall|t: LocationView| #[trigger]
                out@.contains(t) <==> exists|j: int|
                    0 <= j < i && (#[trigger] desired[j]).target == t,
        decreases observed.desired@.len() - i,
    {
        let ghost before = out@;
        assert(desired[i as int] == observed.desired@[i as int]@);
        let _ = out.insert(observed.desired[i].target.clone());
        i += 1;
        assert forall|t: LocationView| #[trigger] out@.contains(t) implies exists|j: int|
            0 <= j < i && (#[trigger] desired[j]).target == t by {
            if before.contains(t) {
                let j = choose|j: int| 0 <= j < i - 1 && (#[trigger] desired[j]).target == t;
                assert(desired[j].target == t);
            } else {
                assert(desired[i - 1].target == t);
            }
        }
    }
    let ghost wanted = out@;
    let n: usize = state.len();
    let ghost keys = state.keys();
    let mut k: usize = 0;
    while k < n
        invariant
            k <= n,
            n == keys.len(),
            keys == state.keys(),
            forall|t: LocationView| #[trigger]
                out@.contains(t) <==> (wanted.contains(t) || exists|j: int|
                    0 <= j < k && !observed.frozen@.contains(state@[#[trigger] keys[j]].group)
                        && state@[keys[j]].target_location() == t),
        decreases n - k,
    {
        let record = state.record_at(k);
        let ghost before = out@;
        assert(record@ == state@[keys[k as int]]);
        if !observed.frozen.contains(&record.group) {
            let _ = out.insert(record.target_location());
        }
        k += 1;
        assert forall|t: LocationView| #[trigger] out@.contains(t) implies (wanted.contains(t)
            || exists|j: int|
            0 <= j < k && !observed.frozen@.contains(state@[#[trigger] keys[j]].group)
                && state@[keys[j]].target_location() == t) by {
            if before.contains(t) {
                if !wanted.contains(t) {
                    let j = choose|j: int|
                        0 <= j < k - 1 && !observed.frozen@.contains(
                            state@[#[trigger] keys[j]].group,
                        ) && state@[keys[j]].target_location() == t;
                    assert(state@[keys[j]].target_location() == t);
                }
            } else {
                assert(state@[keys[k - 1]].target_location() == t);
            }
        }
    }
    proof {
        assert(keys.to_set() == state@.dom());
        assert forall|t: LocationView| #[trigger] out@.contains(t) implies inspected(
            observed@,
            state@,
        ).contains(t) by {
            if !wanted.contains(t) {
                let j = choose|j: int|
                    0 <= j < n && !observed.frozen@.contains(state@[#[trigger] keys[j]].group)
                        && state@[keys[j]].target_location() == t;
                assert(keys.to_set().contains(keys[j]));
                assert(state@.contains_key(keys[j]));
            }
        }
        assert forall|t: LocationView| #[trigger] inspected(observed@, state@).contains(
            t,
        ) implies out@.contains(t) by {
            if !wanted.contains(t) {
                let key = choose|key: KeyView|
                    #[trigger] state@.contains_key(key) && !observed@.frozen.contains(
                        state@[key].group,
                    ) && state@[key].target_location() == t;
                assert(keys.to_set().contains(key));
                let j = choose|j: int| 0 <= j < keys.len() && keys[j] == key;
                assert(state@[keys[j]].target_location() == t);
            }
        }
        assert(out@ =~= inspected(observed@, state@));
    }
    out
}

// Laws.

/// What observing members changes: only desired mounts and notes.
proof fn lemma_observe_members_frame(
    o: ObservedView,
    group: GroupIdView,
    config: GroupView,
    names: Seq<Seq<char>>,
)
    ensures
        observe_members(o, group, config, names).frozen == o.frozen,
        observe_members(o, group, config, names).sources == o.sources,
        observe_members(o, group, config, names).targets == o.targets,
        observe_members(o, group, config, names).members == o.members,
    decreases names.len(),
{
    if names.len() > 0 {
        lemma_observe_members_frame(o, group, config, names.drop_last());
    }
}

/// Observing a group never thaws another.
proof fn lemma_frozen_grows(degraded: Set<GroupIdView>, scans: Seq<GroupScanView>, group: GroupIdView)
    requires
        scans.len() > 0,
        observe_groups(degraded, scans.drop_last()).frozen.contains(group),
    ensures
        observe_groups(degraded, scans).frozen.contains(group),
{
    let front = observe_groups(degraded, scans.drop_last());
    let last = scans.last();
    if let ScanView::Scanned { members, rejected } = last.scan {
        let g = last.group;
        let noted = ObservedView {
            ignored: if hidden_of(rejected).len() == 0 {
                front.ignored
            } else {
                front.ignored.insert(g, hidden_of(rejected))
            },
            notes: front.notes + rejection_notes(g, rejected),
            ..front
        };
        lemma_observe_members_frame(noted, g, last.config, in_order::<Name>(members));
    }
}

/// A group that is degraded, or whose membership directory is deleted or
/// cannot be read, is frozen: nothing of it is touched in the pass.
pub proof fn law_unreadable_groups_are_frozen(
    degraded: Set<GroupIdView>,
    scans: Seq<GroupScanView>,
    i: int,
)
    requires
        0 <= i < scans.len(),
        !(scans[i].scan is Scanned) || degraded.contains(scans[i].group),
    ensures
        observe_groups(degraded, scans).frozen.contains(scans[i].group),
    decreases scans.len(),
{
    let group = scans[i].group;
    if degraded.contains(group) {
        law_degraded_groups_are_frozen(degraded, scans, group);
    } else if i < scans.len() - 1 {
        assert(scans.drop_last()[i] == scans[i]);
        law_unreadable_groups_are_frozen(degraded, scans.drop_last(), i);
        lemma_frozen_grows(degraded, scans, group);
    }
}

/// A degraded group is frozen, whether or not it was scanned.
pub proof fn law_degraded_groups_are_frozen(
    degraded: Set<GroupIdView>,
    scans: Seq<GroupScanView>,
    group: GroupIdView,
)
    requires
        degraded.contains(group),
    ensures
        observe_groups(degraded, scans).frozen.contains(group),
    decreases scans.len(),
{
    if scans.len() > 0 {
        law_degraded_groups_are_frozen(degraded, scans.drop_last(), group);
        lemma_frozen_grows(degraded, scans, group);
    }
}

/// Whether a desired mount is what a member of a scanned group asks for.
pub open spec fn asked_for(
    degraded: Set<GroupIdView>,
    scan: GroupScanView,
    d: DesiredView,
) -> bool {
    &&& !degraded.contains(scan.group)
    &&& scan.scan matches ScanView::Scanned { members, rejected } && members.contains(d.key.name)
    &&& desired_of(scan.group, scan.config, d.key.name) == Ok::<DesiredView, (Seq<char>, InterpolateError)>(d)
}

proof fn lemma_members_ask(
    o: ObservedView,
    group: GroupIdView,
    config: GroupView,
    names: Seq<Seq<char>>,
    i: int,
)
    requires
        o.desired.len() <= i < observe_members(o, group, config, names).desired.len(),
    ensures
        ({
            let d = observe_members(o, group, config, names).desired[i];
            &&& names.contains(d.key.name)
            &&& desired_of(group, config, d.key.name) == Ok::<DesiredView, (Seq<char>, InterpolateError)>(
                d,
            )
        }),
    decreases names.len(),
{
    if names.len() > 0 {
        let front = observe_members(o, group, config, names.drop_last());
        if i < front.desired.len() {
            lemma_members_ask(o, group, config, names.drop_last(), i);
            let d = front.desired[i];
            let j = choose|j: int| 0 <= j < names.len() - 1 && names.drop_last()[j] == d.key.name;
            assert(names[j] == d.key.name);
            assert(observe_members(o, group, config, names).desired[i] == d);
        } else {
            assert(names[names.len() - 1] == names.last());
        }
    }
}

proof fn lemma_members_keep(
    o: ObservedView,
    group: GroupIdView,
    config: GroupView,
    names: Seq<Seq<char>>,
)
    ensures
        observe_members(o, group, config, names).desired.len() >= o.desired.len(),
        forall|i: int|
            0 <= i < o.desired.len() ==> observe_members(o, group, config, names).desired[i]
                == #[trigger] o.desired[i],
    decreases names.len(),
{
    if names.len() > 0 {
        lemma_members_keep(o, group, config, names.drop_last());
    }
}

/// Whether the scans come from directories, so that each group has finitely
/// many members.
pub open spec fn finite_scans(scans: Seq<GroupScanView>) -> bool {
    forall|i: int|
        0 <= i < scans.len() ==> ((#[trigger] scans[i]).scan matches ScanView::Scanned {
            members,
            rejected,
        } ==> members.finite())
}

/// Every desired mount is what a member of a group that was scanned and is
/// not degraded asks for: nothing else is ever mounted.
pub proof fn law_desired_mounts_are_asked_for(
    degraded: Set<GroupIdView>,
    scans: Seq<GroupScanView>,
    i: int,
)
    requires
        finite_scans(scans),
        0 <= i < observe_groups(degraded, scans).desired.len(),
    ensures
        exists|j: int|
            0 <= j < scans.len() && asked_for(
                degraded,
                #[trigger] scans[j],
                observe_groups(degraded, scans).desired[i],
            ),
    decreases scans.len(),
{
    if scans.len() > 0 {
        let rest = scans.drop_last();
        let front = observe_groups(degraded, rest);
        let last = scans.last();
        let d = observe_groups(degraded, scans).desired[i];
        assert(scans[scans.len() - 1] == last);
        if let ScanView::Scanned { members, rejected } = last.scan {
            if !degraded.contains(last.group) {
                let g = last.group;
                let noted = ObservedView {
                    ignored: if hidden_of(rejected).len() == 0 {
                        front.ignored
                    } else {
                        front.ignored.insert(g, hidden_of(rejected))
                    },
                    notes: front.notes + rejection_notes(g, rejected),
                    ..front
                };
                let names = in_order::<Name>(members);
                crate::order::lemma_in_order_finite::<Name>(members);
                lemma_members_keep(noted, g, last.config, names);
                if i >= front.desired.len() {
                    lemma_members_ask(noted, g, last.config, names, i);
                    assert(names.to_set().contains(d.key.name));
                    assert(asked_for(degraded, last, d));
                } else {
                    assert(d == noted.desired[i]);
                }
            }
        }
        if i < front.desired.len() {
            assert forall|k: int| 0 <= k < rest.len() implies ((#[trigger] rest[k]).scan matches
                ScanView::Scanned { members, rejected } ==> members.finite()) by {
                assert(rest[k] == scans[k]);
            }
            law_desired_mounts_are_asked_for(degraded, rest, i);
            let j = choose|j: int|
                0 <= j < rest.len() && asked_for(degraded, #[trigger] rest[j], front.desired[i]);
            assert(scans[j] == rest[j]);
            assert(front.desired[i] == d);
        }
    }
}

/// Whether a desired mount is the one of a member: it has the member's key,
/// the group's roots and attributes, and at either end the path that the
/// template's text gives with the name in place of every `{name}`.
pub open spec fn is_mount_of(
    d: DesiredView,
    group: GroupIdView,
    config: GroupView,
    name: Seq<char>,
) -> bool {
    &&& d.key.group == group
    &&& d.key.name == name
    &&& d.source.root == config.source_root
    &&& d.source.path == named(config.source.raw, name)
    &&& d.target.root == config.target_root
    &&& d.target.path == named(config.target.raw, name)
    &&& d.attrs.read_only == config.attrs.read_only
    &&& d.attrs.noexec == config.attrs.noexec
    &&& d.attrs.nosymfollow == config.attrs.nosymfollow
}

/// Whether the templates of a group are ready for member names.
pub open spec fn usable_group(config: GroupView) -> bool {
    valid_template(config.source) && valid_template(config.target) && ready_group(config)
}

proof fn lemma_desired_of(group: GroupIdView, config: GroupView, name: Seq<char>)
    requires
        usable_group(config),
        valid_name(name),
    ensures
        desired_of(group, config, name) is Ok <==> fits(named(config.source.raw, name)) && fits(
            named(config.target.raw, name),
        ),
        desired_of(group, config, name) matches Ok(d) ==> is_mount_of(d, group, config, name),
{
    law_names_are_substituted(config.source, name);
    law_names_are_substituted(config.target, name);
}

proof fn lemma_member_is_desired(
    o: ObservedView,
    group: GroupIdView,
    config: GroupView,
    names: Seq<Seq<char>>,
    name: Seq<char>,
)
    requires
        names.contains(name),
        usable_group(config),
        valid_name(name),
        fits(named(config.source.raw, name)),
        fits(named(config.target.raw, name)),
    ensures
        exists|k: int|
            0 <= k < observe_members(o, group, config, names).desired.len() && is_mount_of(
                #[trigger] observe_members(o, group, config, names).desired[k],
                group,
                config,
                name,
            ),
    decreases names.len(),
{
    let front = names.drop_last();
    let before = observe_members(o, group, config, front).desired;
    let after = observe_members(o, group, config, names).desired;
    lemma_desired_of(group, config, name);
    if names.last() == name {
        assert(after[before.len() as int] == desired_of(group, config, name)->Ok_0);
    } else {
        let j = choose|j: int| 0 <= j < names.len() && names[j] == name;
        assert(front[j] == name);
        lemma_member_is_desired(o, group, config, front, name);
        let k = choose|k: int|
            0 <= k < before.len() && is_mount_of(#[trigger] before[k], group, config, name);
        assert(after[k] == before[k]);
    }
}

/// Every valid member of a group that was scanned and is not degraded has a
/// desired mount, if the paths that its templates give are not too long: the
/// mount of the source template's path at the target template's path.
pub proof fn law_members_are_desired_at_their_templates(
    degraded: Set<GroupIdView>,
    scans: Seq<GroupScanView>,
    i: int,
    name: Seq<char>,
)
    requires
        finite_scans(scans),
        0 <= i < scans.len(),
        !degraded.contains(scans[i].group),
        usable_group(scans[i].config),
        scans[i].scan matches ScanView::Scanned { members, rejected } && members.contains(name),
        valid_name(name),
        fits(named(scans[i].config.source.raw, name)),
        fits(named(scans[i].config.target.raw, name)),
    ensures
        exists|k: int|
            0 <= k < observe_groups(degraded, scans).desired.len() && is_mount_of(
                #[trigger] observe_groups(degraded, scans).desired[k],
                scans[i].group,
                scans[i].config,
                name,
            ),
    decreases scans.len(),
{
    let rest = scans.drop_last();
    let front = observe_groups(degraded, rest);
    let last = scans.last();
    let all = observe_groups(degraded, scans);
    let g = last.group;
    if i < scans.len() - 1 {
        assert(rest[i] == scans[i]);
        assert forall|k: int| 0 <= k < rest.len() implies ((#[trigger] rest[k]).scan matches
            ScanView::Scanned { members, rejected } ==> members.finite()) by {
            assert(rest[k] == scans[k]);
        }
        law_members_are_desired_at_their_templates(degraded, rest, i, name);
        let k = choose|k: int|
            0 <= k < front.desired.len() && is_mount_of(
                #[trigger] front.desired[k],
                scans[i].group,
                scans[i].config,
                name,
            );
        if let ScanView::Scanned { members, rejected } = last.scan {
            lemma_members_keep(
                noted_group(front, g, rejected),
                g,
                last.config,
                in_order::<Name>(members),
            );
            assert(noted_group(front, g, rejected).desired[k] == front.desired[k]);
        }
        assert(all.desired[k] == front.desired[k]);
    } else {
        assert(last == scans[i]);
        if let ScanView::Scanned { members, rejected } = last.scan {
            let names = in_order::<Name>(members);
            crate::order::lemma_in_order_finite::<Name>(members);
            assert(names.to_set().contains(name));
            let noted = noted_group(front, g, rejected);
            lemma_member_is_desired(noted, g, last.config, names, name);
            let wanted = observe_members(noted, g, last.config, names).desired;
            let k = choose|k: int|
                0 <= k < wanted.len() && is_mount_of(#[trigger] wanted[k], g, last.config, name);
            assert(all.desired == wanted);
            assert(is_mount_of(all.desired[k], g, last.config, name));
        }
    }
}

/// What was observed, with the rejected entries of a group noted.
spec fn noted_group(o: ObservedView, group: GroupIdView, rejected: Seq<RejectionView>) -> ObservedView {
    ObservedView {
        ignored: if hidden_of(rejected).len() == 0 {
            o.ignored
        } else {
            o.ignored.insert(group, hidden_of(rejected))
        },
        notes: o.notes + rejection_notes(group, rejected),
        ..o
    }
}

/// Every desired mount is the one of a valid member of a group that was
/// scanned and is not degraded.
pub proof fn law_only_members_are_desired(degraded: Set<GroupIdView>, scans: Seq<GroupScanView>, i: int)
    requires
        finite_scans(scans),
        forall|j: int|
            0 <= j < scans.len() ==> usable_group((#[trigger] scans[j]).config)
                && has_valid_members(scans[j].scan),
        0 <= i < observe_groups(degraded, scans).desired.len(),
    ensures
        exists|j: int|
            0 <= j < scans.len() && !degraded.contains((#[trigger] scans[j]).group)
                && is_mount_of_scan(observe_groups(degraded, scans).desired[i], scans[j]),
{
    let d = observe_groups(degraded, scans).desired[i];
    law_desired_mounts_are_asked_for(degraded, scans, i);
    let j = choose|j: int| 0 <= j < scans.len() && asked_for(degraded, #[trigger] scans[j], d);
    assert(usable_group(scans[j].config) && has_valid_members(scans[j].scan));
    lemma_desired_of(scans[j].group, scans[j].config, d.key.name);
}

/// Whether the members that a scan gives have valid names.
pub open spec fn has_valid_members(scan: ScanView) -> bool {
    scan matches ScanView::Scanned { members, rejected } ==> forall|name: Seq<char>| #[trigger]
        members.contains(name) ==> valid_name(name)
}

/// Whether a desired mount is the one of a member that the scan found.
pub open spec fn is_mount_of_scan(d: DesiredView, scan: GroupScanView) -> bool {
    &&& scan.scan matches ScanView::Scanned { members, rejected } && members.contains(d.key.name)
    &&& is_mount_of(d, scan.group, scan.config, d.key.name)
}

/// A source is there exactly if it was resolved, as what it was resolved to;
/// else it is told what failed, and where.
pub proof fn law_sources_are_as_resolved(source: LocationView, outcome: SourceOutcome)
    ensures
        match source_seen(source, outcome) {
            SourceView::Resolved(id) => outcome == SourceOutcome::Resolved(id),
            SourceView::Unavailable(why) => match outcome {
                SourceOutcome::Resolved(_) => false,
                SourceOutcome::Failed(e) => why == source.text() + ": "@ + e@,
                SourceOutcome::RootFailed(e) => why == "source root "@ + source.root + ": "@ + e@,
            },
        },
{
}

/// A target is as it was seen; where its root could not be opened, that is told.
pub proof fn law_targets_are_as_seen(target: LocationView, outcome: TargetOutcome)
    ensures
        outcome matches TargetOutcome::Seen(state) ==> target_seen(target, outcome) == state@,
        outcome matches TargetOutcome::RootFailed(e) ==> target_seen(target, outcome)
            == TargetView::Unavailable("target root "@ + target.root + ": "@ + e@),
{
}

/// An entry that is rejected is noted, unless it is hidden, that is, its name
/// begins with a dot: those are ignored, by name.
pub proof fn law_hidden_entries_are_ignored(
    group: GroupIdView,
    rejected: Seq<RejectionView>,
    more: RejectionView,
)
    ensures
        rejection_notes(group, Seq::empty()).len() == 0,
        hidden_of(Seq::empty()).len() == 0,
        more.reason == RejectReasonView::InvalidName(NameError::LeadingDot) ==> rejection_notes(
            group,
            rejected.push(more),
        ) == rejection_notes(group, rejected) && hidden_of(rejected.push(more)) == hidden_of(
            rejected,
        ).push(more.display_name),
        more.reason != RejectReasonView::InvalidName(NameError::LeadingDot) ==> rejection_notes(
            group,
            rejected.push(more),
        ) == rejection_notes(group, rejected).push(NoteView::Rejected { group, rejection: more })
            && hidden_of(rejected.push(more)) == hidden_of(rejected),
{
    assert(rejected.push(more).drop_last() =~= rejected);
}

} // verus!
