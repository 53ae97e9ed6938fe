//! What the `byssus` commands report: `status` and `dry-run`.
use vstd::prelude::*;
use vstd::string::*;

use crate::config::{issue_views, AbsPath, Config, ConfigView, GroupView, Issue, IssueView, Severity};
use crate::name::{GroupId, GroupIdView, Name};
use crate::order::{in_order, lemma_in_push, KeySet, Table};
use crate::probe::{required_features, Feature, KernelFeatures, PropagationCheck, PropagationCheckView};
use crate::reconcile::observe::{Note, NoteView, Observed, ObservedView};
use crate::reconcile::decision::planned;
use crate::reconcile::pass::plan_for;
use crate::report::{all_statuses, check_views, group_report, group_reports, member_statuses, report_views, Check, CheckView, DryRunReport, DryRunView, GroupExtra, GroupExtraView, GroupReportView, Level, StatusReport, StatusReportView};
use crate::state::{KeyView, RecordView, State};
use crate::store::{joined, join_path, IoError, LoadError, LoadOutcome, STATE_FILE_NAME};
use crate::text::{decimal, decimal_text, join, join_texts, texts};

verus! {

/// What checks as root are worth.
pub const RAN_AS_ROOT: &'static str = "checks ran as root because daemon.user is not set";

/// Why a group's directories could not be opened.
#[derive(Debug, PartialEq, Eq)]
pub struct OpenGroupError {
    /// Group name.
    pub group: Name,
    /// Which configured directory.
    pub field: &'static str,
    /// Its path.
    pub path: AbsPath,
    /// Underlying error.
    pub error: String,
}

/// What an open error stands for.
#[verifier::ext_equal]
pub struct OpenGroupErrorView {
    /// Group name.
    pub group: Seq<char>,
    /// Which configured directory.
    pub field: Seq<char>,
    /// Its path.
    pub path: Seq<char>,
    /// Underlying error.
    pub error: Seq<char>,
}

impl View for OpenGroupError {
    type V = OpenGroupErrorView;

    open spec fn view(&self) -> OpenGroupErrorView {
        OpenGroupErrorView {
            group: self.group@,
            field: self.field@,
            path: self.path@,
            error: self.error@,
        }
    }
}

impl OpenGroupErrorView {
    /// The error as text.
    pub open spec fn text(self) -> Seq<char> {
        "group '"@ + self.group + "': cannot open "@ + self.field + " "@ + self.path + ": "@
            + self.error
    }

    /// The group whose directories could not be opened.
    pub open spec fn id(self) -> GroupIdView {
        GroupIdView { set: None, path: seq![self.group] }
    }
}

/// The views of a list of open errors.
pub open spec fn open_views(errors: Seq<OpenGroupError>) -> Seq<OpenGroupErrorView> {
    errors.map_values(|e: OpenGroupError| e@)
}

/// The texts of a list of open errors.
pub open spec fn open_texts(errors: Seq<OpenGroupErrorView>) -> Seq<Seq<char>> {
    errors.map_values(|e: OpenGroupErrorView| e.text())
}

impl OpenGroupError {
    /// Describes the error.
    pub fn message(&self) -> (r: String)
        ensures
            r@ == self@.text(),
    {
        let mut out = String::new();
        out.append("group '");
        out.append(self.group.as_str());
        out.append("': cannot open ");
        out.append(self.field);
        out.append(" ");
        out.append(self.path.as_path());
        out.append(": ");
        out.append(self.error.as_str());
        assert(out@ =~= self@.text());
        out
    }
}

/// The groups that could not be opened. They are left alone.
pub fn unopened(errors: &Vec<OpenGroupError>) -> (r: KeySet<GroupId>)
    ensures
        r@ == open_views(errors@).map_values(|e: OpenGroupErrorView| e.id()).to_set(),
{
    let ghost ids = open_views(errors@).map_values(|e: OpenGroupErrorView| e.id());
    let mut out: KeySet<GroupId> = KeySet::new();
    let mut i: usize = 0;
    assert(out@ =~= ids.take(0).to_set());
    while i < errors.len()
        invariant
            i <= errors@.len(),
            ids == open_views(errors@).map_values(|e: OpenGroupErrorView| e.id()),
            out@ == ids.take(i as int).to_set(),
        decreases errors@.len() - i,
    {
        proof {
            assert(ids[i as int] == errors@[i as int]@.id());
            assert(ids.take(i + 1) =~= ids.take(i as int).push(ids[i as int]));
            ids.take(i as int).lemma_push_to_set_commute(ids[i as int]);
        }
        let _ = out.insert(GroupId::statically(errors[i].group.clone()));
        i += 1;
    }
    assert(ids.take(ids.len() as int) =~= ids);
    out
}

// The state.

/// What a command that writes nothing knows of the state.
#[derive(Debug)]
pub struct KnownState {
    /// The records.
    pub state: State,
    /// Whether it is known which mounts are recorded.
    pub ownership_known: bool,
    /// What there is to say of the state file.
    pub notes: Vec<String>,
    /// Path of the state file.
    pub file: String,
}

/// What is known of the state.
#[verifier::ext_equal]
pub struct KnownStateView {
    /// The records.
    pub state: Map<KeyView, RecordView>,
    /// Whether it is known which mounts are recorded.
    pub ownership_known: bool,
    /// What there is to say of the state file.
    pub notes: Seq<Seq<char>>,
    /// Path of the state file.
    pub file: Seq<char>,
}

impl View for KnownState {
    type V = KnownStateView;

    open spec fn view(&self) -> KnownStateView {
        KnownStateView {
            state: self.state@,
            ownership_known: self.ownership_known,
            notes: texts(self.notes@),
            file: self.file@,
        }
    }
}

/// What came of loading the state without writing.
#[derive(Debug)]
pub enum StateSeen {
    /// The state directory could not be opened.
    NoDirectory(IoError),
    /// The state file was looked at.
    File(Result<LoadOutcome, LoadError>),
}

/// What is known after loading, but for the path of the state file.
pub open spec fn known(seen: StateSeen, dir: Seq<char>) -> (
    Map<KeyView, RecordView>,
    bool,
    Seq<Seq<char>>,
) {
    match seen {
        StateSeen::NoDirectory(e) => (
            Map::empty(),
            false,
            seq![
                "cannot open state directory "@ + dir + ": "@ + e.text@ + (if e.denied {
                    " (join the byssus group or run as root to read state)"@
                } else {
                    Seq::empty()
                }),
            ],
        ),
        StateSeen::File(Ok(LoadOutcome::Loaded(state))) => (state@, true, Seq::empty()),
        StateSeen::File(Ok(LoadOutcome::Missing)) => (
            Map::empty(),
            true,
            seq!["no state file yet"@],
        ),
        StateSeen::File(Ok(LoadOutcome::Corrupt { reason, .. })) => (
            Map::empty(),
            false,
            seq!["state file is corrupt: "@ + reason@],
        ),
        StateSeen::File(Err(LoadError::Io { path, error })) => if error.denied {
            (
                Map::empty(),
                false,
                seq![
                    "cannot read state file: "@ + error.text@
                        + " (join the byssus group or run as root)"@,
                ],
            )
        } else {
            (Map::empty(), false, seq![(LoadError::Io { path, error })@.text()])
        },
        StateSeen::File(Err(e)) => (Map::empty(), false, seq![e@.text()]),
    }
}

fn one_note(note: String) -> (r: Vec<String>)
    ensures
        texts(r@) == seq![note@],
{
    let mut notes: Vec<String> = Vec::new();
    notes.push(note);
    assert(texts(notes@) =~= seq![note@]);
    notes
}

/// Loads state without writing, explaining failures.
pub fn load_state_read_only(dir: &str, seen: StateSeen) -> (r: KnownState)
    ensures
        r@ == (KnownStateView {
            state: known(seen, dir@).0,
            ownership_known: known(seen, dir@).1,
            notes: known(seen, dir@).2,
            file: joined(dir@, STATE_FILE_NAME@),
        }),
{
    let file = join_path(dir, STATE_FILE_NAME);
    match seen {
        StateSeen::NoDirectory(e) => {
            let mut note = String::new();
            note.append("cannot open state directory ");
            note.append(dir);
            note.append(": ");
            note.append(e.text.as_str());
            if e.denied {
                note.append(" (join the byssus group or run as root to read state)");
            }
            assert(note@ =~= known(seen, dir@).2[0]);
            KnownState {
                state: State::default(),
                ownership_known: false,
                notes: one_note(note),
                file,
            }
        },
        StateSeen::File(Ok(LoadOutcome::Loaded(state))) => {
            let notes: Vec<String> = Vec::new();
            assert(texts(notes@) =~= Seq::empty());
            KnownState { state, ownership_known: true, notes, file }
        },
        StateSeen::File(Ok(LoadOutcome::Missing)) => KnownState {
            state: State::default(),
            ownership_known: true,
            notes: one_note("no state file yet".to_owned()),
            file,
        },
        StateSeen::File(Ok(LoadOutcome::Corrupt { reason, .. })) => {
            let mut note = "state file is corrupt: ".to_owned();
            note.append(reason.as_str());
            KnownState {
                state: State::default(),
                ownership_known: false,
                notes: one_note(note),
                file,
            }
        },
        StateSeen::File(Err(LoadError::Io { path, error })) => {
            if error.denied {
                let mut note = "cannot read state file: ".to_owned();
                note.append(error.text.as_str());
                note.append(" (join the byssus group or run as root)");
                KnownState {
                    state: State::default(),
                    ownership_known: false,
                    notes: one_note(note),
                    file,
                }
            } else {
                KnownState {
                    state: State::default(),
                    ownership_known: false,
                    notes: one_note((LoadError::Io { path, error }).message()),
                    file,
                }
            }
        },
        StateSeen::File(Err(e)) => KnownState {
            state: State::default(),
            ownership_known: false,
            notes: one_note(e.message()),
            file,
        },
    }
}

// Status.

/// What `status` says of a note.
pub open spec fn status_note(note: NoteView) -> Option<Seq<char>> {
    match note {
        NoteView::MembershipDeleted { group } => Some(
            "group '"@ + group.text() + "': membership directory has been deleted"@,
        ),
        NoteView::MembershipUnreadable { group, error } => Some(
            "group '"@ + group.text() + "': membership directory unreadable: "@ + error,
        ),
        _ => None,
    }
}

/// What `status` says of notes.
pub open spec fn status_notes(notes: Seq<NoteView>) -> Seq<Seq<char>>
    decreases notes.len(),
{
    if notes.len() == 0 {
        Seq::empty()
    } else {
        let front = status_notes(notes.drop_last());
        match status_note(notes.last()) {
            Some(text) => front.push(text),
            None => front,
        }
    }
}

fn describe_note(note: &Note) -> (r: Option<String>)
    ensures
        match r {
            Some(text) => status_note(note@) == Some(text@),
            None => status_note(note@) is None,
        },
{
    match note {
        Note::MembershipDeleted { group } => {
            let mut out = "group '".to_owned();
            out.append(group.text().as_str());
            out.append("': membership directory has been deleted");
            Some(out)
        },
        Note::MembershipUnreadable { group, error } => {
            let mut out = "group '".to_owned();
            out.append(group.text().as_str());
            out.append("': membership directory unreadable: ");
            out.append(error.as_str());
            Some(out)
        },
        _ => None,
    }
}

/// How many entries were ignored, by the text of the group.
pub open spec fn ignored_counts(
    ignored: Map<GroupIdView, Seq<Seq<char>>>,
    groups: Seq<GroupIdView>,
) -> Map<Seq<char>, usize>
    decreases groups.len(),
{
    if groups.len() == 0 {
        Map::empty()
    } else {
        ignored_counts(ignored, groups.drop_last()).insert(
            groups.last().text(),
            ignored[groups.last()].len() as usize,
        )
    }
}

fn count_ignored(observed: &Observed) -> (r: Table<String, usize>)
    ensures
        r@ == ignored_counts(
            observed@.ignored,
            in_order::<GroupId>(observed@.ignored.dom()),
        ),
{
    let n: usize = observed.ignored.len();
    let ghost groups = observed.ignored.keys();
    let mut out: Table<String, usize> = Table::new();
    let mut i: usize = 0;
    while i < n
        invariant
            i <= n,
            n == groups.len(),
            groups == observed.ignored.keys(),
            out@ == ignored_counts(observed@.ignored, groups.take(i as int)),
        decreases n - i,
    {
        let group = observed.ignored.key_at(i);
        let names = observed.ignored.value_at(i);
        proof {
            assert(groups.take(i + 1).drop_last() =~= groups.take(i as int));
            assert(groups.take(i + 1).last() == groups[i as int]);
            assert(names@.len() == names.0@.len());
        }
        let _ = out.insert(group.text(), names.0.len());
        i += 1;
    }
    assert(groups.take(groups.len() as int) =~= groups);
    out
}

/// The status report.
pub fn status(known: KnownState, open_errors: &Vec<OpenGroupError>, observed: &Observed) -> (r:
    StatusReport)
    ensures
        r@ == (StatusReportView {
            state_file: known@.file,
            ownership_known: known@.ownership_known,
            notes: known@.notes + open_texts(open_views(open_errors@)) + status_notes(
                observed@.notes,
            ),
            ignored: ignored_counts(
                observed@.ignored,
                in_order::<GroupId>(observed@.ignored.dom()),
            ),
            members: all_statuses(
                observed@,
                planned(observed@.input(known@.state)),
                known@.state,
                known@.ownership_known,
            ),
        }),
{
    let KnownState { state, ownership_known, mut notes, file } = known;
    let ghost first = known@.notes;
    let ghost opened = open_texts(open_views(open_errors@));
    let mut i: usize = 0;
    assert(texts(notes@) =~= first + opened.take(0));
    while i < open_errors.len()
        invariant
            i <= open_errors@.len(),
            opened == open_texts(open_views(open_errors@)),
            texts(notes@) == first + opened.take(i as int),
        decreases open_errors@.len() - i,
    {
        let ghost before = texts(notes@);
        assert(opened[i as int] == open_errors@[i as int]@.text());
        let text = open_errors[i].message();
        let ghost added = text@;
        notes.push(text);
        assert(texts(notes@) =~= before.push(added));
        assert(first + opened.take(i + 1) =~= (first + opened.take(i as int)).push(added));
        i += 1;
    }
    assert(opened.take(opened.len() as int) =~= opened);
    let ghost start = first + opened;
    let ghost views = observed@.notes;
    let mut j: usize = 0;
    assert(texts(notes@) =~= start + status_notes(views.take(0)));
    while j < observed.notes.len()
        invariant
            j <= observed.notes@.len(),
            views == observed@.notes,
            texts(notes@) == start + status_notes(views.take(j as int)),
        decreases observed.notes@.len() - j,
    {
        let note = &observed.notes[j];
        let ghost before = texts(notes@);
        proof {
            assert(views.take(j + 1).drop_last() =~= views.take(j as int));
            assert(views.take(j + 1).last() == note@);
        }
        if let Some(text) = describe_note(note) {
            let ghost added = text@;
            notes.push(text);
            assert(texts(notes@) =~= before.push(added));
            assert(start + status_notes(views.take(j + 1)) =~= (start + status_notes(
                views.take(j as int),
            )).push(added));
        }
        j += 1;
    }
    assert(views.take(views.len() as int) =~= views);
    let plan = plan_for(observed, &state);
    let members = member_statuses(observed, &plan, &state, ownership_known);
    StatusReport {
        state_file: file,
        ownership_known,
        notes,
        ignored: count_ignored(observed),
        members,
    }
}

// Dry run.

/// How serious an issue is for a check.
pub open spec fn issue_level(severity: Severity) -> Level {
    match severity {
        Severity::Error => Level::Error,
        Severity::Warning => Level::Warn,
    }
}

/// How serious an issue is for a check.
pub fn level_of(severity: Severity) -> (r: Level)
    ensures
        r == issue_level(severity),
{
    match severity {
        Severity::Error => Level::Error,
        Severity::Warning => Level::Warn,
    }
}

/// The check that an issue makes.
pub open spec fn issue_check(name: Seq<char>, i: IssueView) -> CheckView {
    CheckView { name, level: issue_level(i.severity), detail: i.text() }
}

/// The checks that issues make.
pub open spec fn issue_checks(name: Seq<char>, issues: Seq<IssueView>) -> Seq<CheckView> {
    issues.map_values(|i: IssueView| issue_check(name, i))
}

fn push_issues(checks: &mut Vec<Check>, name: &str, issues: &Vec<Issue>)
    ensures
        check_views(final(checks)@) == check_views(old(checks)@) + issue_checks(
            name@,
            issue_views(issues@),
        ),
{
    let ghost start = check_views(checks@);
    let ghost added = issue_checks(name@, issue_views(issues@));
    let mut i: usize = 0;
    assert(check_views(checks@) =~= start + added.take(0));
    while i < issues.len()
        invariant
            i <= issues@.len(),
            added == issue_checks(name@, issue_views(issues@)),
            check_views(checks@) == start + added.take(i as int),
        decreases issues@.len() - i,
    {
        let issue = &issues[i];
        let ghost before = check_views(checks@);
        assert(issue_views(issues@)[i as int] == issue@);
        let check = Check::new(name, level_of(issue.severity), issue.text().as_str());
        assert(check@ =~= added[i as int]);
        checks.push(check);
        assert(check_views(checks@) =~= before.push(added[i as int]));
        assert(start + added.take(i + 1) =~= (start + added.take(i as int)).push(added[i as int]));
        i += 1;
    }
    assert(added.take(added.len() as int) =~= added);
}

fn push_check(checks: &mut Vec<Check>, name: &str, level: Level, detail: &str)
    ensures
        check_views(final(checks)@) == check_views(old(checks)@).push(
            (CheckView { name: name@, level, detail: detail@ }),
        ),
{
    let ghost before = check_views(checks@);
    let check = Check::new(name, level, detail);
    let ghost added = check@;
    checks.push(check);
    assert(check_views(checks@) =~= before.push(added));
}

/// The report when the configuration is refused: every issue is a check.
pub fn refused_report(issues: &Vec<Issue>) -> (r: DryRunReport)
    ensures
        r@ == (DryRunView {
            checks: issue_checks("config"@, issue_views(issues@)),
            groups: Seq::empty(),
            members: Seq::empty(),
        }),
{
    let mut checks: Vec<Check> = Vec::new();
    assert(check_views(checks@) =~= Seq::empty());
    push_issues(&mut checks, "config", issues);
    let r = DryRunReport { checks, groups: Vec::new(), members: Vec::new() };
    assert(r@.checks =~= issue_checks("config"@, issue_views(issues@)));
    assert(r@.groups =~= Seq::empty());
    assert(r@.members =~= Seq::empty());
    r
}

/// The checks of a configuration that was accepted.
pub open spec fn config_checks(config: ConfigView, warnings: Seq<IssueView>) -> Seq<CheckView> {
    if warnings.len() == 0 {
        seq![
            (CheckView {
                name: "config"@,
                level: Level::Fine,
                detail: decimal(config.files.len()) + " file(s), "@ + decimal(
                    in_order::<Name>(config.groups.dom()).len(),
                ) + " group(s)"@,
            }),
        ]
    } else {
        warnings.map_values(
            |i: IssueView|
                (CheckView { name: "config"@, level: Level::Warn, detail: i.text() }),
        )
    }
}

fn push_config(checks: &mut Vec<Check>, config: &Config, warnings: &Vec<Issue>)
    ensures
        check_views(final(checks)@) == check_views(old(checks)@) + config_checks(
            config@,
            issue_views(warnings@),
        ),
{
    let ghost start = check_views(checks@);
    let ghost added = config_checks(config@, issue_views(warnings@));
    assert(issue_views(warnings@).len() == warnings@.len());
    if warnings.len() == 0 {
        let mut detail = decimal_text(config.files.len() as u64);
        detail.append(" file(s), ");
        detail.append(decimal_text(config.groups.len() as u64).as_str());
        detail.append(" group(s)");
        assert(config@.files.len() == config.files@.len());
        push_check(checks, "config", Level::Fine, detail.as_str());
        assert(check_views(checks@) =~= start + added);
        return ;
    }
    let mut i: usize = 0;
    assert(check_views(checks@) =~= start + added.take(0));
    while i < warnings.len()
        invariant
            i <= warnings@.len(),
            warnings@.len() > 0,
            issue_views(warnings@).len() == warnings@.len(),
            added == config_checks(config@, issue_views(warnings@)),
            check_views(checks@) == start + added.take(i as int),
        decreases warnings@.len() - i,
    {
        let ghost before = check_views(checks@);
        assert(issue_views(warnings@)[i as int] == warnings@[i as int]@);
        push_check(checks, "config", Level::Warn, warnings[i].text().as_str());
        assert(check_views(checks@) =~= before.push(added[i as int]));
        assert(start + added.take(i + 1) =~= (start + added.take(i as int)).push(added[i as int]));
        i += 1;
    }
    assert(added.take(added.len() as int) =~= added);
}

/// The check of what the other checks run as. Root sees what a service user may
/// not.
pub open spec fn privilege_check(dropped: Result<u32, Seq<char>>) -> CheckView {
    match dropped {
        Ok(uid) => if uid == 0 {
            CheckView { name: "privileges"@, level: Level::Warn, detail: RAN_AS_ROOT@ }
        } else {
            CheckView {
                name: "privileges"@,
                level: Level::Fine,
                detail: "checks run as uid "@ + decimal(uid as nat) + " with no capabilities"@,
            }
        },
        Err(e) => CheckView { name: "privileges"@, level: Level::Error, detail: e },
    }
}

/// The check of a kernel feature.
pub open spec fn feature_check(name: Seq<char>, feature: Feature, required: bool) -> CheckView {
    CheckView {
        name: "kernel."@ + name,
        level: if feature is Missing && required {
            Level::Error
        } else {
            Level::Fine
        },
        detail: if feature is Available {
            ""@
        } else if required {
            "missing; Linux 5.12 or newer is required"@
        } else {
            "not supported; reusable mount IDs plus device and inode are used"@
        },
    }
}

fn push_feature(checks: &mut Vec<Check>, name: &str, feature: Feature, required: bool)
    ensures
        check_views(final(checks)@) == check_views(old(checks)@).push(
            feature_check(name@, feature, required),
        ),
{
    let mut full = "kernel.".to_owned();
    full.append(name);
    let level = if !feature.is_available() && required {
        Level::Error
    } else {
        Level::Fine
    };
    let detail = if feature.is_available() {
        ""
    } else if required {
        "missing; Linux 5.12 or newer is required"
    } else {
        "not supported; reusable mount IDs plus device and inode are used"
    };
    push_check(checks, full.as_str(), level, detail);
}

/// The checks of the kernel's features.
pub open spec fn feature_checks(features: KernelFeatures) -> Seq<CheckView> {
    required_features(features).map_values(
        |f: (Seq<char>, Feature)| feature_check(f.0, f.1, true),
    ).push(feature_check("statx_mnt_id_unique"@, features.statx_mnt_id_unique, false))
}

fn push_features(checks: &mut Vec<Check>, features: &KernelFeatures)
    ensures
        check_views(final(checks)@) == check_views(old(checks)@) + feature_checks(*features),
{
    let required = features.required();
    let ghost start = check_views(checks@);
    let ghost views = required_features(*features);
    let ghost added = views.map_values(
        |f: (Seq<char>, Feature)| feature_check(f.0, f.1, true),
    );
    assert(crate::probe::named_views(required@).len() == required@.len());
    let mut i: usize = 0;
    assert(check_views(checks@) =~= start + added.take(0));
    while i < required.len()
        invariant
            i <= required@.len(),
            views == crate::probe::named_views(required@),
            added == views.map_values(
                |f: (Seq<char>, Feature)| feature_check(f.0, f.1, true),
            ),
            check_views(checks@) == start + added.take(i as int),
        decreases required@.len() - i,
    {
        let ghost before = check_views(checks@);
        assert(views[i as int] == (required@[i as int].0@, required@[i as int].1));
        push_feature(checks, required[i].0, required[i].1, true);
        assert(check_views(checks@) =~= before.push(added[i as int]));
        assert(start + added.take(i + 1) =~= (start + added.take(i as int)).push(added[i as int]));
        i += 1;
    }
    assert(added.take(added.len() as int) =~= added);
    push_feature(checks, "statx_mnt_id_unique", features.statx_mnt_id_unique, false);
    assert(check_views(checks@) =~= start + feature_checks(*features));
}

/// The check of `/proc`.
pub open spec fn procfs_check(verified: Result<(), Seq<char>>) -> CheckView {
    match verified {
        Ok(_) => CheckView { name: "procfs"@, level: Level::Fine, detail: "/proc"@ },
        Err(e) => CheckView { name: "procfs"@, level: Level::Error, detail: e },
    }
}

/// The checks of the configured directories.
pub open spec fn path_checks(issues: Seq<IssueView>) -> Seq<CheckView> {
    if issues.len() == 0 {
        seq![(CheckView { name: "config.paths"@, level: Level::Fine, detail: ""@ })]
    } else {
        issue_checks("config.paths"@, issues)
    }
}

/// The check of the state file.
pub open spec fn state_check(known: KnownStateView) -> CheckView {
    CheckView {
        name: "state"@,
        level: if known.ownership_known {
            Level::Fine
        } else {
            Level::Warn
        },
        detail: if known.notes.len() == 0 {
            known.file + " ("@ + decimal(
                in_order::<crate::state::RecordKey>(known.state.dom()).len(),
            ) + " record(s))"@
        } else {
            known.file + ": "@ + join(known.notes, "; "@)
        },
    }
}

fn push_state(checks: &mut Vec<Check>, known: &KnownState)
    ensures
        check_views(final(checks)@) == check_views(old(checks)@).push(state_check(known@)),
{
    let level = if known.ownership_known {
        Level::Fine
    } else {
        Level::Warn
    };
    let mut detail = known.file.clone();
    assert(known@.notes.len() == known.notes@.len());
    if known.notes.len() == 0 {
        detail.append(" (");
        detail.append(decimal_text(known.state.len() as u64).as_str());
        detail.append(" record(s))");
    } else {
        detail.append(": ");
        detail.append(join_texts(&known.notes, "; ").as_str());
    }
    push_check(checks, "state", level, detail.as_str());
}

/// How serious it is how a target root propagates mounts.
pub open spec fn propagation_level(check: PropagationCheckView) -> Level {
    match check {
        PropagationCheckView::Shared => Level::Fine,
        PropagationCheckView::SlaveOnly => Level::Error,
        _ => Level::Warn,
    }
}

/// What is known of a group that could not be opened.
pub open spec fn unopened_extra(e: OpenGroupErrorView) -> GroupExtraView {
    GroupExtraView { propagation: "unknown"@, level: Level::Error, problems: seq![e.text()] }
}

/// What is known of a group whose target root was checked.
pub open spec fn checked_extra(check: PropagationCheckView) -> GroupExtraView {
    GroupExtraView {
        propagation: check.text(),
        level: propagation_level(check),
        problems: Seq::empty(),
    }
}

/// What is known of the groups that could not be opened.
pub open spec fn unopened_extras(errors: Seq<OpenGroupErrorView>) -> Map<
    GroupIdView,
    GroupExtraView,
>
    decreases errors.len(),
{
    if errors.len() == 0 {
        Map::empty()
    } else {
        unopened_extras(errors.drop_last()).insert(
            errors.last().id(),
            unopened_extra(errors.last()),
        )
    }
}

/// The views of groups with their checks.
pub open spec fn checked_views(checked: Seq<(GroupId, PropagationCheck)>) -> Seq<
    (GroupIdView, PropagationCheckView),
> {
    checked.map_values(|c: (GroupId, PropagationCheck)| (c.0@, c.1@))
}

/// What is known of the groups: that they could not be opened, or what came of
/// checking their target roots.
pub open spec fn extras(
    errors: Seq<OpenGroupErrorView>,
    checked: Seq<(GroupIdView, PropagationCheckView)>,
) -> Map<GroupIdView, GroupExtraView>
    decreases checked.len(),
{
    if checked.len() == 0 {
        unopened_extras(errors)
    } else {
        extras(errors, checked.drop_last()).insert(
            checked.last().0,
            checked_extra(checked.last().1),
        )
    }
}

fn group_extras(
    errors: &Vec<OpenGroupError>,
    checked: &Vec<(GroupId, PropagationCheck)>,
) -> (r: Table<GroupId, GroupExtra>)
    ensures
        r@ == extras(open_views(errors@), checked_views(checked@)),
{
    let ghost failed = open_views(errors@);
    let mut out: Table<GroupId, GroupExtra> = Table::new();
    let mut i: usize = 0;
    assert(failed.take(0) =~= Seq::empty());
    while i < errors.len()
        invariant
            i <= errors@.len(),
            failed == open_views(errors@),
            out@ == unopened_extras(failed.take(i as int)),
        decreases errors@.len() - i,
    {
        let e = &errors[i];
        proof {
            assert(failed.take(i + 1).drop_last() =~= failed.take(i as int));
            assert(failed.take(i + 1).last() == e@);
        }
        let extra = GroupExtra {
            propagation: "unknown".to_owned(),
            level: Level::Error,
            problems: one_note(e.message()),
        };
        assert(extra@ =~= unopened_extra(e@));
        let _ = out.insert(GroupId::statically(e.group.clone()), extra);
        i += 1;
    }
    assert(failed.take(failed.len() as int) =~= failed);
    let ghost views = checked_views(checked@);
    let mut j: usize = 0;
    assert(views.take(0) =~= Seq::empty());
    while j < checked.len()
        invariant
            j <= checked@.len(),
            views == checked_views(checked@),
            out@ == extras(failed, views.take(j as int)),
        decreases checked@.len() - j,
    {
        let c = &checked[j];
        proof {
            assert(views.take(j + 1).drop_last() =~= views.take(j as int));
            assert(views.take(j + 1).last() == (c.0@, c.1@));
        }
        let level = match &c.1 {
            PropagationCheck::Shared => Level::Fine,
            PropagationCheck::SlaveOnly => Level::Error,
            _ => Level::Warn,
        };
        let extra = GroupExtra { propagation: c.1.describe(), level, problems: Vec::new() };
        assert(extra@ =~= checked_extra(c.1@));
        let _ = out.insert(c.0.clone(), extra);
        j += 1;
    }
    assert(views.take(views.len() as int) =~= views);
    out
}

/// The configured groups with their membership directories.
pub open spec fn configured(groups: Map<Seq<char>, GroupView>, names: Seq<Seq<char>>) -> Seq<
    (GroupIdView, Seq<char>),
> {
    names.map_values(
        |n: Seq<char>|
            (
                (GroupIdView { set: None, path: seq![groups[n].name] }),
                groups[n].membership,
            ),
    )
}

/// The views of groups with their membership directories.
pub open spec fn membership_views(groups: Seq<(GroupId, String)>) -> Seq<(GroupIdView, Seq<char>)> {
    groups.map_values(|g: (GroupId, String)| (g.0@, g.1@))
}

fn memberships(config: &Config) -> (r: Vec<(GroupId, String)>)
    ensures
        membership_views(r@) == configured(
            config@.groups,
            in_order::<Name>(config@.groups.dom()),
        ),
{
    let n: usize = config.groups.len();
    let ghost names = config.groups.keys();
    let ghost all = configured(config@.groups, names);
    let mut out: Vec<(GroupId, String)> = Vec::new();
    let mut i: usize = 0;
    assert(membership_views(out@) =~= all.take(0));
    while i < n
        invariant
            i <= n,
            n == names.len(),
            names == config.groups.keys(),
            all == configured(config@.groups, names),
            membership_views(out@) == all.take(i as int),
        decreases n - i,
    {
        let group = config.groups.value_at(i);
        let ghost before = membership_views(out@);
        let item = (
            GroupId::statically(group.name.clone()),
            group.membership.as_path().to_owned(),
        );
        out.push(item);
        assert(membership_views(out@) =~= before.push(all[i as int]));
        assert(all.take(i + 1) =~= all.take(i as int).push(all[i as int]));
        i += 1;
    }
    assert(all.take(all.len() as int) =~= all);
    out
}

/// What a dry run found out.
#[derive(Debug)]
pub struct DryRunFacts<'a> {
    /// The configuration.
    pub config: &'a Config,
    /// What it was warned of.
    pub warnings: &'a Vec<Issue>,
    /// The user that the checks run as, or why privileges were not dropped as
    /// configured.
    pub privileges: Result<u32, String>,
    /// Kernel features.
    pub features: KernelFeatures,
    /// Whether `/proc` is procfs.
    pub procfs: Result<(), String>,
    /// What is wrong with the configured directories.
    pub path_issues: &'a Vec<Issue>,
    /// What is known of the state.
    pub known: &'a KnownState,
    /// Groups whose directories could not be opened.
    pub open_errors: &'a Vec<OpenGroupError>,
    /// What came of checking the target roots of the others.
    pub checked: &'a Vec<(GroupId, PropagationCheck)>,
    /// The groups of group sets, with their membership directories.
    pub discovered: Vec<(GroupId, String)>,
    /// What was observed.
    pub observed: &'a Observed,
}

/// A result with its error as text.
pub open spec fn text_result<T>(r: Result<T, String>) -> Result<T, Seq<char>> {
    match r {
        Ok(x) => Ok(x),
        Err(e) => Err(e@),
    }
}

/// The checks of a dry run.
pub open spec fn dry_run_checks(f: DryRunFacts<'_>) -> Seq<CheckView> {
    config_checks(f.config@, issue_views(f.warnings@)) + seq![
        privilege_check(text_result(f.privileges)),
    ] + feature_checks(f.features) + seq![procfs_check(text_result(f.procfs))] + path_checks(
        issue_views(f.path_issues@),
    ) + seq![state_check(f.known@)]
}

fn checks_of(f: &DryRunFacts<'_>) -> (r: Vec<Check>)
    ensures
        check_views(r@) == dry_run_checks(*f),
{
    let mut checks: Vec<Check> = Vec::new();
    assert(check_views(checks@) =~= Seq::empty());
    push_config(&mut checks, f.config, f.warnings);
    match &f.privileges {
        Ok(uid) => if *uid == 0 {
            push_check(&mut checks, "privileges", Level::Warn, RAN_AS_ROOT);
        } else {
            let mut detail = "checks run as uid ".to_owned();
            detail.append(decimal_text(*uid as u64).as_str());
            detail.append(" with no capabilities");
            push_check(&mut checks, "privileges", Level::Fine, detail.as_str());
        },
        Err(e) => {
            push_check(&mut checks, "privileges", Level::Error, e.as_str());
        },
    }
    let ghost first = config_checks(f.config@, issue_views(f.warnings@)) + seq![
        privilege_check(text_result(f.privileges)),
    ];
    assert(check_views(checks@) =~= first);
    push_features(&mut checks, &f.features);
    match &f.procfs {
        Ok(_) => push_check(&mut checks, "procfs", Level::Fine, "/proc"),
        Err(e) => push_check(&mut checks, "procfs", Level::Error, e.as_str()),
    }
    let ghost second = first + feature_checks(f.features) + seq![
        procfs_check(text_result(f.procfs)),
    ];
    assert(check_views(checks@) =~= second);
    assert(issue_views(f.path_issues@).len() == f.path_issues@.len());
    if f.path_issues.len() == 0 {
        push_check(&mut checks, "config.paths", Level::Fine, "");
    } else {
        push_issues(&mut checks, "config.paths", f.path_issues);
    }
    assert(check_views(checks@) =~= second + path_checks(issue_views(f.path_issues@)));
    push_state(&mut checks, f.known);
    assert(check_views(checks@) =~= dry_run_checks(*f));
    checks
}

/// The summaries of groups.
pub open spec fn summaries(
    groups: Seq<(GroupIdView, Seq<char>)>,
    o: ObservedView,
    known: KnownStateView,
    extra: Map<GroupIdView, GroupExtraView>,
) -> Seq<GroupReportView> {
    let p = planned(o.input(known.state));
    let members = all_statuses(o, p, known.state, known.ownership_known);
    groups.map_values(
        |g: (GroupIdView, Seq<char>)| group_report(g.0, g.1, o, p, members, extra),
    )
}

/// The dry-run report.
pub fn dry_run(f: DryRunFacts<'_>) -> (r: DryRunReport)
    ensures
        r@ == (DryRunView {
            checks: dry_run_checks(f),
            groups: summaries(
                configured(f.config@.groups, in_order::<Name>(f.config@.groups.dom()))
                    + membership_views(f.discovered@),
                f.observed@,
                f.known@,
                extras(open_views(f.open_errors@), checked_views(f.checked@)),
            ),
            members: all_statuses(
                f.observed@,
                planned(f.observed@.input(f.known@.state)),
                f.known@.state,
                f.known@.ownership_known,
            ),
        }),
{
    let checks = checks_of(&f);
    let extra = group_extras(f.open_errors, f.checked);
    let plan = plan_for(f.observed, &f.known.state);
    let members = member_statuses(f.observed, &plan, &f.known.state, f.known.ownership_known);
    let mut groups = memberships(f.config);
    let ghost fixed = membership_views(groups@);
    let mut discovered = f.discovered;
    let ghost found = membership_views(discovered@);
    groups.append(&mut discovered);
    assert(membership_views(groups@) =~= fixed + found);
    let reports = group_reports(&groups, f.observed, &plan, &members, &extra);
    proof {
        let views = membership_views(groups@);
        let all = summaries(views, f.observed@, f.known@, extra@);
        assert forall|i: int| 0 <= i < all.len() implies report_views(reports@)[i] == all[i] by {
            assert(views[i] == (groups@[i].0@, groups@[i].1@));
            assert(reports@[i]@ == all[i]);
        }
        assert(report_views(reports@) =~= all);
    }
    DryRunReport { checks, groups: reports, members }
}

/// Whether a command fails, from how serious its report is.
pub fn fails(level: Level) -> (r: bool)
    ensures
        r <==> level == Level::Error,
{
    match level {
        Level::Error => true,
        _ => false,
    }
}

// Laws.

/// Whether one of the checks is an error.
pub open spec fn has_failed(checks: Seq<CheckView>) -> bool {
    exists|i: int| 0 <= i < checks.len() && (#[trigger] checks[i]).level == Level::Error
}

proof fn lemma_failed_both(a: Seq<CheckView>, b: Seq<CheckView>)
    ensures
        has_failed(a + b) <==> has_failed(a) || has_failed(b),
{
    let all = a + b;
    if has_failed(a) {
        let i = choose|i: int| 0 <= i < a.len() && (#[trigger] a[i]).level == Level::Error;
        assert(all[i] == a[i]);
    }
    if has_failed(b) {
        let i = choose|i: int| 0 <= i < b.len() && (#[trigger] b[i]).level == Level::Error;
        assert(all[a.len() + i] == b[i]);
    }
    if has_failed(all) {
        let i = choose|i: int| 0 <= i < all.len() && (#[trigger] all[i]).level == Level::Error;
        if i < a.len() {
            assert(a[i] == all[i]);
        } else {
            assert(b[i - a.len()] == all[i]);
        }
    }
}

proof fn lemma_failed_one(c: CheckView)
    ensures
        has_failed(seq![c]) <==> c.level == Level::Error,
{
    assert(seq![c][0] == c);
}

proof fn lemma_failed_features(features: KernelFeatures)
    ensures
        has_failed(feature_checks(features)) <==> {
            ||| features.open_tree is Missing
            ||| features.move_mount is Missing
            ||| features.openat2 is Missing
            ||| features.mount_setattr is Missing
            ||| features.statx_mnt_id is Missing
            ||| features.statx_mount_root is Missing
        },
{
    let all = feature_checks(features);
    let named = required_features(features);
    assert(all.len() == 7);
    assert forall|i: int| 0 <= i < 6 implies (#[trigger] all[i]).level == (
    if named[i].1 is Missing {
        Level::Error
    } else {
        Level::Fine
    }) by {
    }
    assert(all[6].level == Level::Fine);
    assert(named[0].1 == features.open_tree && named[1].1 == features.move_mount && named[2].1
        == features.openat2 && named[3].1 == features.mount_setattr && named[4].1
        == features.statx_mnt_id && named[5].1 == features.statx_mount_root);
    if has_failed(all) {
        let i = choose|i: int| 0 <= i < all.len() && (#[trigger] all[i]).level == Level::Error;
        assert(i == 0 || i == 1 || i == 2 || i == 3 || i == 4 || i == 5);
    }
    if exists|i: int| 0 <= i < 6 && (#[trigger] named[i]).1 is Missing {
        let i = choose|i: int| 0 <= i < 6 && (#[trigger] named[i]).1 is Missing;
        assert(all[i].level == Level::Error);
    }
}

proof fn lemma_failed_issues(name: Seq<char>, issues: Seq<IssueView>)
    ensures
        has_failed(issue_checks(name, issues)) <==> crate::config::has_error(issues),
{
    let all = issue_checks(name, issues);
    if has_failed(all) {
        let i = choose|i: int| 0 <= i < all.len() && (#[trigger] all[i]).level == Level::Error;
        assert(issues[i].severity == Severity::Error);
    }
    if crate::config::has_error(issues) {
        let i = choose|i: int|
            0 <= i < issues.len() && (#[trigger] issues[i]).severity == Severity::Error;
        assert(all[i].level == Level::Error);
    }
}

/// A check of a dry run is an error exactly if privileges were not dropped as
/// configured, a feature that is required is missing, `/proc` is not procfs, or
/// a configured directory is wrong. Warnings about the configuration and what is
/// not known of the state are none.
pub proof fn law_dry_runs_fail_for_a_cause(f: DryRunFacts<'_>)
    ensures
        has_failed(dry_run_checks(f)) <==> {
            ||| f.privileges is Err
            ||| f.features.open_tree is Missing
            ||| f.features.move_mount is Missing
            ||| f.features.openat2 is Missing
            ||| f.features.mount_setattr is Missing
            ||| f.features.statx_mnt_id is Missing
            ||| f.features.statx_mount_root is Missing
            ||| f.procfs is Err
            ||| crate::config::has_error(issue_views(f.path_issues@))
        },
{
    let config = config_checks(f.config@, issue_views(f.warnings@));
    let privileges = privilege_check(text_result(f.privileges));
    let features = feature_checks(f.features);
    let procfs = procfs_check(text_result(f.procfs));
    let paths = path_checks(issue_views(f.path_issues@));
    let state = state_check(f.known@);
    lemma_failed_both(
        config + seq![privileges] + features + seq![procfs] + paths,
        seq![state],
    );
    lemma_failed_both(config + seq![privileges] + features + seq![procfs], paths);
    lemma_failed_both(config + seq![privileges] + features, seq![procfs]);
    lemma_failed_both(config + seq![privileges], features);
    lemma_failed_both(config, seq![privileges]);
    lemma_failed_one(privileges);
    lemma_failed_one(procfs);
    lemma_failed_one(state);
    lemma_failed_features(f.features);
    lemma_failed_issues("config.paths"@, issue_views(f.path_issues@));
    assert(!has_failed(config)) by {
        assert forall|i: int| 0 <= i < config.len() implies (#[trigger] config[i]).level
            != Level::Error by {
        }
    }
    if issue_views(f.path_issues@).len() == 0 {
        assert(!has_failed(paths)) by {
            assert(paths.len() == 1 && paths[0].level == Level::Fine);
        }
        assert(!crate::config::has_error(issue_views(f.path_issues@)));
    }
}

/// Each issue with a directory is a check of its own, as serious as the issue
/// and in its words; where there is none, that is said.
pub proof fn law_issues_are_checks(issues: Seq<IssueView>, i: int)
    requires
        0 <= i < issues.len(),
    ensures
        path_checks(issues).len() == issues.len(),
        path_checks(issues)[i].name == "config.paths"@,
        path_checks(issues)[i].detail == issues[i].text(),
        path_checks(issues)[i].level == Level::Error <==> issues[i].severity == Severity::Error,
        path_checks(issues)[i].level != Level::Fine,
        path_checks(Seq::empty()).len() == 1,
        path_checks(Seq::empty())[0].level == Level::Fine,
{
}

/// Checks that run as root are worth a warning, and so is a state that is not
/// known; where the state is known without more to say, its file is told.
pub proof fn law_doubts_are_warnings(uid: u32, known: KnownStateView)
    ensures
        privilege_check(Ok(uid)).level == Level::Warn <==> uid == 0,
        privilege_check(Ok(uid)).level == Level::Fine <==> uid != 0,
        state_check(known).level == Level::Warn <==> !known.ownership_known,
        state_check(known).level == Level::Fine <==> known.ownership_known,
        state_check(known).detail.take(known.file.len() as int) == known.file,
{
    assert(state_check(known).detail.take(known.file.len() as int) =~= known.file);
}

/// The state is known where its file was read or there is none yet. There are
/// records only where it was read, and only then is there nothing to say.
pub proof fn law_state_is_known_where_it_was_read(seen: StateSeen, dir: Seq<char>)
    ensures
        ({
            let (records, is_known, notes) = known(seen, dir);
            &&& is_known <==> {
                ||| seen matches StateSeen::File(Ok(LoadOutcome::Loaded(_)))
                ||| seen matches StateSeen::File(Ok(LoadOutcome::Missing))
            }
            &&& seen matches StateSeen::File(Ok(LoadOutcome::Loaded(state))) ==> records == state@
            &&& notes.len() == 0 <==> (seen matches StateSeen::File(Ok(LoadOutcome::Loaded(_))))
            &&& !(seen matches StateSeen::File(Ok(LoadOutcome::Loaded(_)))) ==> records
                == Map::<KeyView, RecordView>::empty()
        }),
{
}

/// What is said of the groups is said of each whose membership directory was
/// deleted or cannot be read, with the reason, and of no other.
pub proof fn law_unreadable_groups_are_told(notes: Seq<NoteView>, text: Seq<char>)
    ensures
        status_notes(notes).contains(text) <==> exists|i: int|
            #![trigger notes[i]]
            0 <= i < notes.len() && {
                ||| notes[i] matches NoteView::MembershipDeleted { group } && text == "group '"@
                    + group.text() + "': membership directory has been deleted"@
                ||| notes[i] matches NoteView::MembershipUnreadable { group, error } && text
                    == "group '"@ + group.text() + "': membership directory unreadable: "@ + error
            },
    decreases notes.len(),
{
    if notes.len() > 0 {
        let front = notes.drop_last();
        law_unreadable_groups_are_told(front, text);
        let n = notes.len() - 1;
        assert(notes[n] == notes.last());
        assert forall|i: int| 0 <= i < front.len() implies #[trigger] notes[i] == front[i] by {
        }
        if let Some(last) = status_note(notes.last()) {
            lemma_in_push(status_notes(front), last, text);
        }
        assert forall|i: int| 0 <= i < front.len() implies #[trigger] front[i] == notes[i] by {
        }
    } else {
        assert(!status_notes(notes).contains(text));
    }
}

/// The entries ignored in a group are counted under its text, where no other
/// group has that text.
pub proof fn law_ignored_entries_are_counted(
    ignored: Map<GroupIdView, Seq<Seq<char>>>,
    groups: Seq<GroupIdView>,
    i: int,
)
    requires
        0 <= i < groups.len(),
        forall|k: int|
            0 <= k < groups.len() && k != i ==> (#[trigger] groups[k]).text() != groups[i].text(),
        ignored[groups[i]].len() <= usize::MAX,
    ensures
        ignored_counts(ignored, groups).contains_key(groups[i].text()),
        ignored_counts(ignored, groups)[groups[i].text()] == ignored[groups[i]].len(),
    decreases groups.len(),
{
    let front = groups.drop_last();
    if i < front.len() {
        assert forall|k: int| 0 <= k < front.len() && k != i implies (#[trigger] front[k]).text()
            != front[i].text() by {
            assert(front[k] == groups[k]);
        }
        law_ignored_entries_are_counted(ignored, front, i);
        assert(groups[groups.len() - 1].text() != groups[i].text());
    }
}

/// Nothing is counted but the groups that were looked at.
pub proof fn law_only_groups_are_counted(
    ignored: Map<GroupIdView, Seq<Seq<char>>>,
    groups: Seq<GroupIdView>,
    text: Seq<char>,
)
    requires
        ignored_counts(ignored, groups).contains_key(text),
    ensures
        exists|i: int| 0 <= i < groups.len() && (#[trigger] groups[i]).text() == text,
    decreases groups.len(),
{
    if groups.len() > 0 {
        let front = groups.drop_last();
        if groups.last().text() == text {
            assert(groups[groups.len() - 1].text() == text);
        } else {
            law_only_groups_are_counted(ignored, front, text);
            let i = choose|i: int| 0 <= i < front.len() && (#[trigger] front[i]).text() == text;
            assert(groups[i].text() == text);
        }
    }
}

proof fn lemma_unopened(errors: Seq<OpenGroupErrorView>, group: GroupIdView)
    ensures
        unopened_extras(errors).contains_key(group) <==> exists|i: int|
            #![trigger errors[i]]
            0 <= i < errors.len() && group.set is None && group.path == seq![errors[i].group],
        unopened_extras(errors).contains_key(group) ==> unopened_extras(errors)[group].level
            == Level::Error && unopened_extras(errors)[group].propagation == "unknown"@
            && unopened_extras(errors)[group].problems.len() == 1,
    decreases errors.len(),
{
    if errors.len() > 0 {
        let front = errors.drop_last();
        lemma_unopened(front, group);
        assert(errors[errors.len() - 1] == errors.last());
        assert forall|i: int| 0 <= i < front.len() implies #[trigger] errors[i] == front[i] by {
        }
        assert forall|i: int| 0 <= i < front.len() implies #[trigger] front[i] == errors[i] by {
        }
        if group == errors.last().id() {
            assert(group.path == seq![errors.last().group]);
        } else if group.set is None {
            assert(group.path != seq![errors.last().group]);
        }
    }
}

/// What is known of a group is how its target root propagates where that was
/// checked: sharing is fine, a slave is an error, anything else a warning. Of a
/// group that could not be opened it is that, as an error; of others there is
/// nothing.
pub proof fn law_groups_are_told_apart(
    errors: Seq<OpenGroupErrorView>,
    checked: Seq<(GroupIdView, PropagationCheckView)>,
    group: GroupIdView,
)
    ensures
        ({
            let all = extras(errors, checked);
            let was_checked = exists|i: int|
                #![trigger checked[i]]
                0 <= i < checked.len() && checked[i].0 == group;
            let failed = exists|i: int|
                #![trigger errors[i]]
                0 <= i < errors.len() && group.set is None && group.path == seq![errors[i].group];
            &&& all.contains_key(group) <==> was_checked || failed
            &&& was_checked ==> exists|i: int|
                #![trigger checked[i]]
                0 <= i < checked.len() && checked[i].0 == group && all[group].propagation
                    == checked[i].1.text() && all[group].problems.len() == 0 && (all[group].level
                    == Level::Fine <==> checked[i].1 is Shared) && (all[group].level
                    == Level::Error <==> checked[i].1 is SlaveOnly)
            &&& failed && !was_checked ==> all[group].level == Level::Error
                && all[group].problems.len() == 1
        }),
    decreases checked.len(),
{
    if checked.len() == 0 {
        lemma_unopened(errors, group);
    } else {
        let front = checked.drop_last();
        let n = checked.len() - 1;
        law_groups_are_told_apart(errors, front, group);
        assert(checked[n] == checked.last());
        assert forall|i: int| 0 <= i < front.len() implies #[trigger] checked[i] == front[i] by {
        }
        assert forall|i: int| 0 <= i < front.len() implies #[trigger] front[i] == checked[i] by {
        }
        let all = extras(errors, checked);
        if checked.last().0 == group {
            assert(all[group] == checked_extra(checked.last().1));
        } else {
            assert(all[group] == extras(errors, front)[group]);
            assert(all.contains_key(group) <==> extras(errors, front).contains_key(group));
        }
    }
}

} // verus!
