//! Startup decisions shared by `byssusd` and the `byssus` CLI.
use vstd::prelude::*;
use vstd::string::*;

use crate::config::{issue_views, AbsPath, Config, GroupView, Issue, IssueView, LoadError, LoadOptions, Loaded, OptionsView, OwnershipPolicy, Severity, DEFAULT_CONFIG_DIR, DEFAULT_CONFIG_FILE};
use crate::logging::{field, LogRecord, LogRecordView};
use crate::name::Name;
use crate::order::{in_order, lemma_in_push};
use crate::privileges::apply::{caps_text, describe_caps};
use crate::privileges::plan::{warning_views, PrivilegePlan, ServiceUser, Warning, WarningView};
use crate::probe::{missing_features_hint, missing_of, named_views, required_features, Feature, KernelFeatures, PropagationCheck, PropagationCheckView, FILTERED_HINT, KERNEL_HINT};
use crate::reconcile::{log_record, record_views, set_label, set_text};
use crate::sets::SetView;
use crate::state::{KeyView, RecordView, State};
use crate::store::{LoadError as StateError, LoadOutcome, LoadOutcomeView};
use crate::text::{decimal, decimal_text, join, join_texts, texts};
use crate::users::{resolve_error_text, ResolveError};

verus! {

/// Where configuration comes from.
#[derive(Debug, PartialEq, Eq)]
pub struct ConfigSource {
    /// Explicit main file (`--config`).
    pub file: Option<String>,
    /// Explicit fragment directory (`--config-dir`).
    pub dir: Option<String>,
}

impl Default for ConfigSource {
    fn default() -> (r: Self)
        ensures
            r.file is None,
            r.dir is None,
    {
        ConfigSource { file: None, dir: None }
    }
}

impl ConfigSource {
    /// Load options for this source. What is named explicitly has to exist.
    pub fn options(&self, ownership: OwnershipPolicy) -> (r: LoadOptions)
        ensures
            r@ == (OptionsView {
                main_file: match self.file {
                    Some(file) => file@,
                    None => DEFAULT_CONFIG_FILE@,
                },
                main_file_required: self.file is Some,
                config_dir: match self.dir {
                    Some(dir) => dir@,
                    None => DEFAULT_CONFIG_DIR@,
                },
                config_dir_required: self.dir is Some,
                ownership,
                trusted_uid: 0,
                check_paths: false,
            }),
    {
        LoadOptions {
            main_file: match &self.file {
                Some(file) => file.clone(),
                None => DEFAULT_CONFIG_FILE.to_owned(),
            },
            main_file_required: self.file.is_some(),
            config_dir: match &self.dir {
                Some(dir) => dir.clone(),
                None => DEFAULT_CONFIG_DIR.to_owned(),
            },
            config_dir_required: self.dir.is_some(),
            ownership,
            trusted_uid: 0,
            check_paths: false,
        }
    }
}

/// An issue as a line of text.
pub open spec fn issue_line(i: IssueView) -> Seq<char> {
    (match i.severity {
        Severity::Error => "error"@,
        Severity::Warning => "warning"@,
    }) + ": "@ + i.text()
}

/// Formats configuration issues, one per line.
pub fn format_issues(issues: &Vec<Issue>) -> (r: String)
    ensures
        r@ == join(issue_views(issues@).map_values(|i: IssueView| issue_line(i)), "\n"@),
{
    let ghost all = issue_views(issues@).map_values(|i: IssueView| issue_line(i));
    let mut lines: Vec<String> = Vec::new();
    let mut i: usize = 0;
    while i < issues.len()
        invariant
            i <= issues@.len(),
            all == issue_views(issues@).map_values(|i: IssueView| issue_line(i)),
            texts(lines@) =~= all.take(i as int),
        decreases issues@.len() - i,
    {
        let issue = &issues[i];
        let ghost before = texts(lines@);
        assert(issue_views(issues@)[i as int] == issue@);
        let mut line = String::new();
        line.append(
            match issue.severity {
                Severity::Error => "error",
                Severity::Warning => "warning",
            },
        );
        line.append(": ");
        line.append(issue.text().as_str());
        assert(line@ =~= issue_line(issue@));
        let ghost added = line@;
        lines.push(line);
        assert(texts(lines@) =~= before.push(added));
        i += 1;
    }
    assert(texts(lines@) =~= all);
    join_texts(&lines, "\n")
}

/// What is logged of a configuration issue.
pub open spec fn issue_record(i: IssueView) -> LogRecordView {
    log_record(
        crate::logging::Severity::Warn,
        seq![field("msg"@, "configuration"@), field("issue"@, i.text())],
    )
}

/// The issues of a severity, in order.
pub open spec fn of_severity(issues: Seq<IssueView>, severity: Severity) -> Seq<IssueView>
    decreases issues.len(),
{
    if issues.len() == 0 {
        Seq::empty()
    } else {
        let front = of_severity(issues.drop_last(), severity);
        if issues.last().severity == severity {
            front.push(issues.last())
        } else {
            front
        }
    }
}

/// What is logged of configuration issues that are warnings.
pub fn log_warnings(issues: &Vec<Issue>) -> (r: Vec<LogRecord>)
    ensures
        record_views(r@) == of_severity(issue_views(issues@), Severity::Warning).map_values(
            |i: IssueView| issue_record(i),
        ),
{
    let ghost views = issue_views(issues@);
    let ghost f = |i: IssueView| issue_record(i);
    let mut out: Vec<LogRecord> = Vec::new();
    let mut i: usize = 0;
    assert(record_views(out@) =~= of_severity(views.take(0), Severity::Warning).map_values(f));
    while i < issues.len()
        invariant
            i <= issues@.len(),
            views == issue_views(issues@),
            f == (|i: IssueView| issue_record(i)),
            record_views(out@) == of_severity(
                views.take(i as int),
                Severity::Warning,
            ).map_values(f),
        decreases issues@.len() - i,
    {
        let issue = &issues[i];
        let ghost before = record_views(out@);
        let ghost chosen = of_severity(views.take(i as int), Severity::Warning);
        proof {
            assert(views.take(i + 1).drop_last() =~= views.take(i as int));
            assert(views.take(i + 1).last() == issue@);
        }
        if issue.severity == Severity::Warning {
            let mut record = LogRecord::new(crate::logging::Severity::Warn);
            record.add("msg", "configuration");
            record.add("issue", issue.text().as_str());
            assert(record@.fields =~= issue_record(issue@).fields);
            let ghost added = record@;
            out.push(record);
            assert(record_views(out@) =~= before.push(added));
            assert(chosen.push(issue@).map_values(f) =~= chosen.map_values(f).push(added));
        }
        i += 1;
    }
    assert(views.take(views.len() as int) =~= views);
    out
}

/// What comes of the directories that a configuration names: every error is
/// reported.
pub open spec fn paths_error(issues: Seq<IssueView>) -> Option<Seq<char>> {
    let errors = of_severity(issues, Severity::Error);
    if errors.len() == 0 {
        None
    } else {
        Some(
            "invalid configuration paths\n"@ + join(
                errors.map_values(|i: IssueView| issue_line(i)),
                "\n"@,
            ),
        )
    }
}

/// Checks configured paths: warnings are logged, errors fail.
pub fn verify_config_paths(issues: Vec<Issue>) -> (r: (Vec<LogRecord>, Result<(), String>))
    ensures
        record_views(r.0@) == of_severity(issue_views(issues@), Severity::Warning).map_values(
            |i: IssueView| issue_record(i),
        ),
        match r.1 {
            Ok(_) => paths_error(issue_views(issues@)) is None,
            Err(e) => paths_error(issue_views(issues@)) == Some(e@),
        },
{
    let logs = log_warnings(&issues);
    let ghost views = issue_views(issues@);
    let mut errors: Vec<Issue> = Vec::new();
    assert(issue_views(errors@) =~= of_severity(views.take(0), Severity::Error));
    for issue in it: issues
        invariant
            it.seq() == issues@,
            views == issue_views(issues@),
            issue_views(errors@) == of_severity(views.take(it.index() as int), Severity::Error),
    {
        let ghost k = it.index() as int;
        let ghost before = issue_views(errors@);
        proof {
            assert(views.take(k + 1).drop_last() =~= views.take(k));
            assert(views.take(k + 1).last() == issue@);
        }
        if issue.severity == Severity::Error {
            let ghost added = issue@;
            errors.push(issue);
            assert(issue_views(errors@) =~= before.push(added));
        }
    }
    proof {
        assert(views.take(views.len() as int) =~= views);
        assert(issue_views(errors@).len() == errors@.len());
    }
    if errors.len() == 0 {
        (logs, Ok(()))
    } else {
        let mut out = String::new();
        out.append("invalid configuration paths\n");
        out.append(format_issues(&errors).as_str());
        (logs, Err(out))
    }
}

// Privileges.

/// What is logged when the service user is not known.
pub open spec fn unresolved_record(user: Seq<char>, error: Seq<char>) -> LogRecordView {
    log_record(
        crate::logging::Severity::Warn,
        seq![
            field("msg"@, "cannot resolve configured service user"@),
            field("user"@, user),
            field("error"@, error),
        ],
    )
}

/// The service user to plan with. Root must know it; anyone else goes on
/// without, and says so.
pub fn service_user(name: &str, is_root: bool, resolved: Result<ServiceUser, ResolveError>) -> (r:
    Result<(Option<ServiceUser>, Vec<LogRecord>), String>)
    ensures
        match resolved {
            Ok(user) => r matches Ok((Some(u), logs)) && u@ == user@ && record_views(logs@).len()
                == 0,
            Err(e) => if is_root {
                r matches Err(text) && text@ == "cannot resolve service user: "@
                    + resolve_error_text(e)
            } else {
                r matches Ok((None, logs)) && record_views(logs@) == seq![
                    unresolved_record(name@, resolve_error_text(e)),
                ]
            },
        },
{
    let mut logs: Vec<LogRecord> = Vec::new();
    match resolved {
        Ok(user) => Ok((Some(user), logs)),
        Err(e) => {
            let text = e.message();
            if is_root {
                let mut out = String::new();
                out.append("cannot resolve service user: ");
                out.append(text.as_str());
                assert(out@ =~= "cannot resolve service user: "@ + resolve_error_text(e));
                Err(out)
            } else {
                let mut record = LogRecord::new(crate::logging::Severity::Warn);
                record.add("msg", "cannot resolve configured service user");
                record.add("user", name);
                record.add("error", text.as_str());
                assert(record@.fields =~= unresolved_record(name@, text@).fields);
                let ghost added = record@;
                logs.push(record);
                assert(record_views(logs@) =~= seq![added]);
                Ok((None, logs))
            }
        },
    }
}

/// What is logged of a warning of a privilege plan.
pub open spec fn warning_record(w: WarningView) -> LogRecordView {
    match w {
        WarningView::RunningAsRoot => log_record(
            crate::logging::Severity::Warn,
            seq![
                field(
                    "msg"@,
                    "running as root because --allow-root was given; configure a service user for production"@,
                ),
            ],
        ),
        WarningView::UserNotApplied { user, effective_uid } => log_record(
            crate::logging::Severity::Warn,
            seq![
                field(
                    "msg"@,
                    "not running as root, so the configured service user is not applied"@,
                ),
                field("user"@, user),
                field("uid"@, decimal(effective_uid as nat)),
            ],
        ),
    }
}

fn log_warning(w: &Warning) -> (r: LogRecord)
    ensures
        r@ == warning_record(w@),
{
    let mut r = LogRecord::new(crate::logging::Severity::Warn);
    match w {
        Warning::RunningAsRoot => {
            r.add(
                "msg",
                "running as root because --allow-root was given; configure a service user for production",
            );
        },
        Warning::UserNotApplied { user, effective_uid } => {
            r.add("msg", "not running as root, so the configured service user is not applied");
            r.add("user", user.as_str());
            r.add("uid", decimal_text(*effective_uid as u64).as_str());
        },
    }
    assert(r@.fields =~= warning_record(w@).fields);
    r
}

/// What is logged of the warnings of a privilege plan.
pub fn log_plan_warnings(plan: &PrivilegePlan) -> (r: Vec<LogRecord>)
    ensures
        record_views(r@) == plan@.warnings.map_values(|w: WarningView| warning_record(w)),
{
    let ghost all = plan@.warnings.map_values(|w: WarningView| warning_record(w));
    let mut out: Vec<LogRecord> = Vec::new();
    let mut i: usize = 0;
    while i < plan.warnings.len()
        invariant
            i <= plan.warnings@.len(),
            all == warning_views(plan.warnings@).map_values(|w: WarningView| warning_record(w)),
            record_views(out@) =~= all.take(i as int),
        decreases plan.warnings@.len() - i,
    {
        let ghost before = record_views(out@);
        assert(warning_views(plan.warnings@)[i as int] == plan.warnings@[i as int]@);
        let record = log_warning(&plan.warnings[i]);
        let ghost added = record@;
        out.push(record);
        assert(record_views(out@) =~= before.push(added));
        i += 1;
    }
    assert(record_views(out@) =~= all);
    out
}

/// What is logged once privileges are normalized.
pub fn log_normalized(plan: &PrivilegePlan) -> (r: LogRecord)
    ensures
        r@ == log_record(
            crate::logging::Severity::Info,
            seq![
                field("msg"@, "privileges normalized"@),
                field("uid"@, decimal(plan@.final_uid as nat)),
                field("caps"@, caps_text(plan@.final_caps)),
            ],
        ),
{
    let mut r = LogRecord::new(crate::logging::Severity::Info);
    r.add("msg", "privileges normalized");
    r.add("uid", decimal_text(plan.final_uid as u64).as_str());
    r.add("caps", describe_caps(plan.final_caps).as_str());
    assert(r@.fields =~= seq![
        field("msg"@, "privileges normalized"@),
        field("uid"@, decimal(plan@.final_uid as nat)),
        field("caps"@, caps_text(plan@.final_caps)),
    ]);
    r
}

// The environment.

/// The names of features.
pub open spec fn feature_names(features: Seq<(Seq<char>, Feature)>) -> Seq<Seq<char>> {
    features.map_values(|f: (Seq<char>, Feature)| f.0)
}

/// Why the environment cannot be used, if it cannot: a required kernel feature
/// is missing.
pub fn check_features(features: &KernelFeatures, seccomp_filtered: bool) -> (r: Result<(), String>)
    ensures
        ({
            let missing = missing_of(required_features(*features));
            match r {
                Ok(_) => missing.len() == 0,
                Err(e) => missing.len() > 0 && e@ == "required kernel features are unavailable: "@
                    + join(feature_names(missing), ", "@) + " ("@ + (if seccomp_filtered {
                    FILTERED_HINT@
                } else {
                    KERNEL_HINT@
                }) + ")"@,
            }
        }),
{
    let missing = features.missing_required();
    let ghost views = missing_of(required_features(*features));
    assert(named_views(missing@).len() == missing@.len());
    if missing.len() == 0 {
        return Ok(());
    }
    let mut names: Vec<String> = Vec::new();
    let mut i: usize = 0;
    while i < missing.len()
        invariant
            i <= missing@.len(),
            views == named_views(missing@),
            texts(names@) =~= feature_names(views).take(i as int),
        decreases missing@.len() - i,
    {
        let ghost before = texts(names@);
        assert(views[i as int].0 == missing@[i as int].0@);
        names.push(missing[i].0.to_owned());
        assert(texts(names@) =~= before.push(views[i as int].0));
        i += 1;
    }
    assert(texts(names@) =~= feature_names(views));
    let mut out = String::new();
    out.append("required kernel features are unavailable: ");
    out.append(join_texts(&names, ", ").as_str());
    out.append(" (");
    out.append(missing_features_hint(seccomp_filtered));
    out.append(")");
    Err(out)
}

// Propagation.

/// A target root to check for propagation, and what came of it.
#[derive(Debug)]
pub struct TargetCheck {
    /// The group it belongs to.
    pub group: String,
    /// Its path.
    pub target_root: AbsPath,
    /// What came of the check.
    pub check: PropagationCheck,
}

/// What a checked target root stands for.
#[verifier::ext_equal]
pub struct TargetCheckView {
    /// The group it belongs to.
    pub group: Seq<char>,
    /// Its path.
    pub target_root: Seq<char>,
    /// What came of the check.
    pub check: PropagationCheckView,
}

impl View for TargetCheck {
    type V = TargetCheckView;

    open spec fn view(&self) -> TargetCheckView {
        TargetCheckView {
            group: self.group@,
            target_root: self.target_root@,
            check: self.check@,
        }
    }
}

/// The views of a list of checked target roots.
pub open spec fn check_views(checks: Seq<TargetCheck>) -> Seq<TargetCheckView> {
    checks.map_values(|c: TargetCheck| c@)
}

/// The target roots of the groups among `names`, each with its group.
pub open spec fn target_roots(groups: Map<Seq<char>, GroupView>, names: Seq<Seq<char>>) -> Seq<
    (Seq<char>, Seq<char>),
> {
    names.map_values(|n: Seq<char>| (groups[n].name, groups[n].target_root))
}

/// The target roots of the sets among `names`, each with its label.
pub open spec fn set_target_roots(sets: Map<Seq<char>, SetView>, names: Seq<Seq<char>>) -> Seq<
    (Seq<char>, Seq<char>),
> {
    names.map_values(|n: Seq<char>| (set_label(sets[n].name), sets[n].target_root))
}

/// The target roots to check for propagation: one per statically configured
/// group (labeled by group) and one per group set (labeled `set/*`).
pub fn propagation_targets(config: &Config) -> (r: Vec<(String, AbsPath)>)
    ensures
        r@.map_values(|t: (String, AbsPath)| (t.0@, t.1@)) == target_roots(
            config@.groups,
            in_order::<Name>(config@.groups.dom()),
        ) + set_target_roots(config@.sets, in_order::<Name>(config@.sets.dom())),
{
    let n: usize = config.groups.len();
    let ghost names = config.groups.keys();
    let ghost all = target_roots(config@.groups, names);
    let ghost f = |t: (String, AbsPath)| (t.0@, t.1@);
    let mut out: Vec<(String, AbsPath)> = Vec::new();
    let mut i: usize = 0;
    while i < n
        invariant
            i <= n,
            n == names.len(),
            names == config.groups.keys(),
            f == (|t: (String, AbsPath)| (t.0@, t.1@)),
            all == target_roots(config@.groups, names),
            out@.map_values(f) =~= all.take(i as int),
        decreases n - i,
    {
        let group = config.groups.value_at(i);
        let ghost before = out@.map_values(f);
        let item = (group.name.as_str().to_owned(), group.target_root.clone());
        let ghost added = f(item);
        out.push(item);
        assert(out@.map_values(f) =~= before.push(added));
        i += 1;
    }
    assert(out@.map_values(f) =~= all);
    let m: usize = config.sets.len();
    let ghost set_names = config.sets.keys();
    let ghost more = set_target_roots(config@.sets, set_names);
    let mut j: usize = 0;
    while j < m
        invariant
            j <= m,
            m == set_names.len(),
            set_names == config.sets.keys(),
            f == (|t: (String, AbsPath)| (t.0@, t.1@)),
            more == set_target_roots(config@.sets, set_names),
            out@.map_values(f) =~= all + more.take(j as int),
        decreases m - j,
    {
        let set = config.sets.value_at(j);
        let ghost before = out@.map_values(f);
        let item = (set_text(&set.name), set.target_root.clone());
        let ghost added = f(item);
        out.push(item);
        assert(out@.map_values(f) =~= before.push(added));
        j += 1;
    }
    assert(out@.map_values(f) =~= all + more);
    out
}

/// What is logged of a checked target root.
pub open spec fn target_record(c: TargetCheckView) -> LogRecordView {
    match c.check {
        PropagationCheckView::Shared => log_record(
            crate::logging::Severity::Debug,
            seq![
                field("group"@, c.group),
                field("target_root"@, c.target_root),
                field("propagation"@, "shared"@),
            ],
        ),
        _ => log_record(
            if c.check is SlaveOnly {
                crate::logging::Severity::Error
            } else {
                crate::logging::Severity::Warn
            },
            seq![
                field("group"@, c.group),
                field("target_root"@, c.target_root),
                field("msg"@, c.check.text()),
            ],
        ),
    }
}

/// The groups whose target root is a slave mount, in order.
pub open spec fn slave_groups(checks: Seq<TargetCheckView>) -> Seq<Seq<char>>
    decreases checks.len(),
{
    if checks.len() == 0 {
        Seq::empty()
    } else {
        let front = slave_groups(checks.drop_last());
        if checks.last().check is SlaveOnly {
            front.push(checks.last().group)
        } else {
            front
        }
    }
}

/// What is logged of a process outside PID 1's mount namespace.
pub open spec fn foreign_namespace() -> LogRecordView {
    log_record(
        crate::logging::Severity::Error,
        seq![
            field(
                "msg"@,
                "this process is not in PID 1's mount namespace; mounts may not be visible to containers"@,
            ),
        ],
    )
}

/// Why target roots on slave mounts are refused.
pub open spec fn slave_error(groups: Seq<Seq<char>>) -> Seq<char> {
    "target roots of groups "@ + join(groups, ", "@)
        + " are slave mounts, so mounts would not propagate back to the host; refusing to start (is byssusd in a private mount namespace? Use --allow-slave-namespace to override)"@
}

fn log_target(c: &TargetCheck) -> (r: LogRecord)
    ensures
        r@ == target_record(c@),
{
    let severity = match &c.check {
        PropagationCheck::Shared => crate::logging::Severity::Debug,
        PropagationCheck::SlaveOnly => crate::logging::Severity::Error,
        _ => crate::logging::Severity::Warn,
    };
    let mut r = LogRecord::new(severity);
    r.add("group", c.group.as_str());
    r.add("target_root", c.target_root.as_path());
    match &c.check {
        PropagationCheck::Shared => {
            r.add("propagation", "shared");
        },
        check => {
            r.add("msg", check.describe().as_str());
        },
    }
    assert(r@.fields =~= target_record(c@).fields);
    r
}

/// Judges the propagation of every target root: each is logged, and slave
/// mounts are refused unless they are allowed. `same_namespace` says
/// whether the process shares PID 1's mount namespace, if that is known.
pub fn check_propagation(
    checks: &Vec<TargetCheck>,
    same_namespace: Option<bool>,
    allow_slave: bool,
) -> (r: (Vec<LogRecord>, Result<(), String>))
    ensures
        record_views(r.0@) == check_views(checks@).map_values(
            |c: TargetCheckView| target_record(c),
        ) + (if same_namespace == Some(false) {
            seq![foreign_namespace()]
        } else {
            Seq::empty()
        }),
        ({
            let slaves = slave_groups(check_views(checks@));
            match r.1 {
                Ok(_) => slaves.len() == 0 || allow_slave,
                Err(e) => slaves.len() > 0 && !allow_slave && e@ == slave_error(slaves),
            }
        }),
{
    let ghost views = check_views(checks@);
    let ghost all = views.map_values(|c: TargetCheckView| target_record(c));
    let mut logs: Vec<LogRecord> = Vec::new();
    let mut slaves: Vec<String> = Vec::new();
    let mut i: usize = 0;
    assert(texts(slaves@) =~= slave_groups(views.take(0)));
    while i < checks.len()
        invariant
            i <= checks@.len(),
            views == check_views(checks@),
            all == views.map_values(|c: TargetCheckView| target_record(c)),
            record_views(logs@) =~= all.take(i as int),
            texts(slaves@) == slave_groups(views.take(i as int)),
        decreases checks@.len() - i,
    {
        let c = &checks[i];
        let ghost logs_before = record_views(logs@);
        let ghost slaves_before = texts(slaves@);
        proof {
            assert(views.take(i + 1).drop_last() =~= views.take(i as int));
            assert(views.take(i + 1).last() == c@);
            assert(views[i as int] == c@);
        }
        let record = log_target(c);
        let ghost added = record@;
        logs.push(record);
        assert(record_views(logs@) =~= logs_before.push(added));
        if let PropagationCheck::SlaveOnly = &c.check {
            slaves.push(c.group.clone());
            assert(texts(slaves@) =~= slaves_before.push(c@.group));
        }
        i += 1;
    }
    proof {
        assert(views.take(views.len() as int) =~= views);
        assert(texts(slaves@).len() == slaves@.len());
    }
    assert(record_views(logs@) =~= all);
    let foreign = match same_namespace {
        Some(same) => !same,
        None => false,
    };
    if foreign {
        let mut record = LogRecord::new(crate::logging::Severity::Error);
        record.add(
            "msg",
            "this process is not in PID 1's mount namespace; mounts may not be visible to containers",
        );
        assert(record@.fields =~= foreign_namespace().fields);
        let ghost added = record@;
        logs.push(record);
        assert(record_views(logs@) =~= all.push(added));
    }
    assert(record_views(logs@) =~= all + (if same_namespace == Some(false) {
        seq![foreign_namespace()]
    } else {
        Seq::empty()
    }));
    if slaves.len() > 0 && !allow_slave {
        let mut out = String::new();
        out.append("target roots of groups ");
        out.append(join_texts(&slaves, ", ").as_str());
        out.append(
            " are slave mounts, so mounts would not propagate back to the host; refusing to start (is byssusd in a private mount namespace? Use --allow-slave-namespace to override)",
        );
        return (logs, Err(out));
    }
    (logs, Ok(()))
}

/// Why the state lock could not be taken.
#[derive(Debug, PartialEq, Eq)]
pub enum LockError {
    /// Another process holds the lock.
    Held,
    /// A system call failed.
    Io(String),
}

impl LockError {
    /// Describes the failure, in the state directory `dir`.
    pub fn message(&self, dir: &str) -> (r: String)
        ensures
            r@ == (match self {
                LockError::Held => "another Byssus process holds the state lock in "@ + dir@
                    + " (is byssusd running? send it SIGHUP instead)"@,
                LockError::Io(e) => "cannot lock state directory: "@ + e@,
            }),
    {
        let mut out = String::new();
        match self {
            LockError::Held => {
                out.append("another Byssus process holds the state lock in ");
                out.append(dir);
                out.append(" (is byssusd running? send it SIGHUP instead)");
                assert(out@ =~= "another Byssus process holds the state lock in "@ + dir@
                    + " (is byssusd running? send it SIGHUP instead)"@);
            },
            LockError::Io(e) => {
                out.append("cannot lock state directory: ");
                out.append(e.as_str());
                assert(out@ =~= "cannot lock state directory: "@ + e@);
            },
        }
        out
    }
}

/// What a configuration that was refused says.
pub open spec fn refused_config(issues: Seq<IssueView>) -> Seq<char> {
    "invalid configuration ("@ + decimal(crate::config::errors_of(issues).len()) + " error(s))"@
        + "\n"@ + join(issues.map_values(|i: IssueView| issue_line(i)), "\n"@)
}

/// Takes over what came of loading configuration: warnings are logged, and an
/// error carries every issue.
pub fn load_config(loaded: Result<Loaded, LoadError>) -> (r: Result<
    (Config, Vec<LogRecord>),
    String,
>)
    ensures
        match (loaded, r) {
            (Ok(loaded), Ok((config, logs))) => config@ == loaded.config@ && record_views(logs@)
                == of_severity(issue_views(loaded.warnings@), Severity::Warning).map_values(
                |i: IssueView| issue_record(i),
            ),
            (Err(e), Err(text)) => text@ == refused_config(issue_views(e.issues@)),
            _ => false,
        },
{
    match loaded {
        Ok(loaded) => {
            let logs = log_warnings(&loaded.warnings);
            Ok((loaded.config, logs))
        },
        Err(e) => {
            let mut out = e.message();
            out.append("\n");
            out.append(format_issues(&e.issues).as_str());
            assert(out@ =~= refused_config(issue_views(e.issues@)));
            Err(out)
        },
    }
}

/// What is logged of an environment that can be used.
pub open spec fn features_record(features: KernelFeatures) -> LogRecordView {
    log_record(
        crate::logging::Severity::Debug,
        seq![
            field("msg"@, "kernel features"@),
            field(
                "unique_mount_ids"@,
                if features.statx_mnt_id_unique is Available {
                    "true"@
                } else {
                    "false"@
                },
            ),
        ],
    )
}

/// Whether the environment can be used: no required kernel feature is missing,
/// and `/proc` is procfs.
pub fn check_environment(
    features: &KernelFeatures,
    seccomp_filtered: bool,
    procfs: Result<(), String>,
) -> (r: Result<LogRecord, String>)
    ensures
        ({
            let missing = missing_of(required_features(*features));
            match r {
                Ok(log) => missing.len() == 0 && procfs is Ok && log@ == features_record(*features),
                Err(e) => if missing.len() > 0 {
                    e@ == "required kernel features are unavailable: "@ + join(
                        feature_names(missing),
                        ", "@,
                    ) + " ("@ + (if seccomp_filtered {
                        FILTERED_HINT@
                    } else {
                        KERNEL_HINT@
                    }) + ")"@
                } else {
                    procfs matches Err(why) && e@ == "/proc is not usable: "@ + why@
                },
            }
        }),
{
    if let Err(e) = check_features(features, seccomp_filtered) {
        return Err(e);
    }
    if let Err(why) = procfs {
        let mut out = "/proc is not usable: ".to_owned();
        out.append(why.as_str());
        return Err(out);
    }
    let mut log = LogRecord::new(crate::logging::Severity::Debug);
    log.add("msg", "kernel features");
    log.add(
        "unique_mount_ids",
        if features.unique_mount_ids() {
            "true"
        } else {
            "false"
        },
    );
    assert(log@.fields =~= features_record(*features).fields);
    Ok(log)
}

/// What is logged of a state file that is not there.
pub open spec fn missing_state_record(path: Seq<char>) -> LogRecordView {
    log_record(
        crate::logging::Severity::Info,
        seq![field("msg"@, "no state file; starting with empty state"@), field("path"@, path)],
    )
}

/// What is logged of a state file that is corrupt.
pub open spec fn corrupt_state_record(reason: Seq<char>, preserved_as: Option<Seq<char>>) -> LogRecordView {
    log_record(
        crate::logging::Severity::Error,
        seq![
            field(
                "msg"@,
                "state file is corrupt; starting with empty state (existing mounts will be reported as conflicts)"@,
            ),
            field("reason"@, reason),
            field(
                "preserved_as"@,
                match preserved_as {
                    Some(path) => path,
                    None => Seq::empty(),
                },
            ),
        ],
    )
}

/// Takes over what came of loading the state for writing: a missing or corrupt
/// file is logged and stands for no records, and anything else that went wrong
/// is an error.
pub fn open_state_for_write(path: &str, loaded: Result<LoadOutcome, StateError>) -> (r: Result<
    (State, Vec<LogRecord>),
    String,
>)
    ensures
        match (loaded, r) {
            (Ok(outcome), Ok((state, logs))) => match outcome@ {
                LoadOutcomeView::Loaded(records) => state@ == records && record_views(logs@).len()
                    == 0,
                LoadOutcomeView::Missing => state@ == Map::<KeyView, RecordView>::empty()
                    && record_views(logs@) == seq![missing_state_record(path@)],
                LoadOutcomeView::Corrupt { reason, preserved_as } => state@ == Map::<
                    KeyView,
                    RecordView,
                >::empty() && record_views(logs@) == seq![
                    corrupt_state_record(reason, preserved_as),
                ],
            },
            (Err(e), Err(text)) => text@ == e@.text(),
            _ => false,
        },
{
    let mut logs: Vec<LogRecord> = Vec::new();
    match loaded {
        Ok(LoadOutcome::Loaded(state)) => Ok((state, logs)),
        Ok(LoadOutcome::Missing) => {
            let mut record = LogRecord::new(crate::logging::Severity::Info);
            record.add("msg", "no state file; starting with empty state");
            record.add("path", path);
            assert(record@.fields =~= missing_state_record(path@).fields);
            let ghost added = record@;
            logs.push(record);
            assert(record_views(logs@) =~= seq![added]);
            Ok((State::default(), logs))
        },
        Ok(LoadOutcome::Corrupt { reason, preserved_as }) => {
            let mut record = LogRecord::new(crate::logging::Severity::Error);
            record.add(
                "msg",
                "state file is corrupt; starting with empty state (existing mounts will be reported as conflicts)",
            );
            record.add("reason", reason.as_str());
            match &preserved_as {
                Some(path) => record.add("preserved_as", path.as_str()),
                None => record.add("preserved_as", String::new().as_str()),
            }
            let ghost view = LoadOutcome::Corrupt { reason, preserved_as }@;
            assert(record@.fields =~= corrupt_state_record(
                reason@,
                view->preserved_as,
            ).fields);
            let ghost added = record@;
            logs.push(record);
            assert(record_views(logs@) =~= seq![added]);
            Ok((State::default(), logs))
        },
        Err(e) => Err(e.message()),
    }
}

// Laws.

/// Warnings are logged and errors reported, each exactly if it is one.
pub proof fn law_issues_go_by_their_severity(
    issues: Seq<IssueView>,
    severity: Severity,
    issue: IssueView,
)
    ensures
        of_severity(issues, severity).contains(issue) <==> issues.contains(issue)
            && issue.severity == severity,
    decreases issues.len(),
{
    if issues.len() > 0 {
        let front = issues.drop_last();
        law_issues_go_by_their_severity(front, severity, issue);
        assert(front.push(issues.last()) =~= issues);
        lemma_in_push(front, issues.last(), issue);
        lemma_in_push(of_severity(front, severity), issues.last(), issue);
    } else {
        assert(!of_severity(issues, severity).contains(issue));
        assert(!issues.contains(issue));
    }
}

/// Directories are refused for errors only. Each error has a line of its own;
/// warnings do not show.
pub proof fn law_path_errors_have_their_lines(issues: Seq<IssueView>, more: IssueView)
    ensures
        paths_error(Seq::empty()) is None,
        paths_error(issues) is None <==> !crate::config::has_error(issues),
        more.severity == Severity::Warning ==> paths_error(issues.push(more)) == paths_error(
            issues,
        ),
        more.severity == Severity::Error ==> paths_error(issues.push(more)) == Some(
            (match paths_error(issues) {
                None => "invalid configuration paths\n"@,
                Some(text) => text + "\n"@,
            }) + "error: "@ + more.text(),
        ),
{
    reveal_strlit("error");
    reveal_strlit(": ");
    reveal_strlit("error: ");
    let all = issues.push(more);
    assert(all.drop_last() =~= issues);
    let before = of_severity(issues, Severity::Error);
    let after = of_severity(all, Severity::Error);
    let lines = before.map_values(|i: IssueView| issue_line(i));
    let longer = after.map_values(|i: IssueView| issue_line(i));
    if more.severity == Severity::Error {
        assert(longer.drop_last() =~= lines);
        assert(longer.last() == issue_line(more));
        assert("error"@ + ": "@ =~= "error: "@);
        assert(issue_line(more) =~= "error: "@ + more.text());
        if before.len() > 0 {
            assert(join(longer, "\n"@) == join(lines, "\n"@) + "\n"@ + issue_line(more));
            let text = paths_error(issues)->0;
            assert(paths_error(all)->0 =~= text + "\n"@ + "error: "@ + more.text());
        } else {
            reveal_with_fuel(join, 2);
            assert(join(longer, "\n"@) =~= issue_line(more));
            assert(paths_error(all)->0 =~= "invalid configuration paths\n"@ + "error: "@
                + more.text());
        }
    }
    if crate::config::has_error(issues) {
        let i = choose|i: int|
            0 <= i < issues.len() && (#[trigger] issues[i]).severity == Severity::Error;
        law_issues_go_by_their_severity(issues, Severity::Error, issues[i]);
        assert(issues.contains(issues[i]));
    } else if before.len() > 0 {
        law_issues_go_by_their_severity(issues, Severity::Error, before[0]);
        assert(before.contains(before[0]));
        let i = choose|i: int| 0 <= i < issues.len() && issues[i] == before[0];
        assert(issues[i].severity == Severity::Error);
    }
}

/// A refused configuration is refused with the number of its errors, which
/// warnings do not add to.
pub proof fn law_errors_are_counted(issues: Seq<IssueView>, more: IssueView)
    ensures
        crate::config::errors_of(Seq::<IssueView>::empty()).len() == 0,
        crate::config::errors_of(issues.push(more)).len() == crate::config::errors_of(issues).len()
            + (if more.severity == Severity::Error {
            1int
        } else {
            0int
        }),
{
    assert(issues.push(more).drop_last() =~= issues);
}

/// The groups that are refused are those whose target root is a slave mount.
pub proof fn law_slave_groups_are_named(checks: Seq<TargetCheckView>, group: Seq<char>)
    ensures
        slave_groups(checks).contains(group) <==> exists|i: int|
            #![trigger checks[i]]
            0 <= i < checks.len() && checks[i].check is SlaveOnly && checks[i].group == group,
    decreases checks.len(),
{
    if checks.len() > 0 {
        let front = checks.drop_last();
        law_slave_groups_are_named(front, group);
        assert(checks[checks.len() - 1] == checks.last());
        assert forall|i: int| 0 <= i < front.len() implies #[trigger] checks[i] == front[i] by {
        }
        assert forall|i: int| 0 <= i < front.len() implies #[trigger] front[i] == checks[i] by {
        }
        lemma_in_push(slave_groups(front), checks.last().group, group);
    } else {
        assert(!slave_groups(checks).contains(group));
    }
}

/// What is logged of a target root names its group and path. It is an error
/// exactly for a slave mount, and nothing to worry about exactly for a shared
/// one.
pub proof fn law_targets_are_logged(c: TargetCheckView)
    ensures
        ({
            let log = target_record(c);
            &&& log.severity == crate::logging::Severity::Error <==> c.check is SlaveOnly
            &&& log.severity == crate::logging::Severity::Debug <==> c.check is Shared
            &&& log.severity == crate::logging::Severity::Warn <==> !(c.check is SlaveOnly)
                && !(c.check is Shared)
            &&& log.fields[0] == field("group"@, c.group)
            &&& log.fields[1] == field("target_root"@, c.target_root)
            &&& log.fields.len() == 3
            &&& !(c.check is Shared) ==> log.fields[2] == field("msg"@, c.check.text())
        }),
{
}

/// The target roots to check are those of every group and every group set.
pub proof fn law_every_target_root_is_checked(
    groups: Map<Seq<char>, GroupView>,
    sets: Map<Seq<char>, SetView>,
    names: Seq<Seq<char>>,
    i: int,
)
    requires
        0 <= i < names.len(),
    ensures
        target_roots(groups, names).len() == names.len(),
        target_roots(groups, names)[i].0 == groups[names[i]].name,
        target_roots(groups, names)[i].1 == groups[names[i]].target_root,
        set_target_roots(sets, names).len() == names.len(),
        set_target_roots(sets, names)[i].0 == sets[names[i]].name + "/*"@,
        set_target_roots(sets, names)[i].1 == sets[names[i]].target_root,
{
}

/// What is logged of the state, the service user and the kernel names what it
/// is about.
pub proof fn law_records_name_what_they_are_about(
    path: Seq<char>,
    reason: Seq<char>,
    aside: Seq<char>,
    user: Seq<char>,
    uid: u32,
    why: Seq<char>,
    features: KernelFeatures,
)
    ensures
        missing_state_record(path).severity == crate::logging::Severity::Info,
        missing_state_record(path).fields.contains(field("path"@, path)),
        corrupt_state_record(reason, Some(aside)).severity == crate::logging::Severity::Error,
        corrupt_state_record(reason, Some(aside)).fields.contains(field("reason"@, reason)),
        corrupt_state_record(reason, Some(aside)).fields.contains(field("preserved_as"@, aside)),
        corrupt_state_record(reason, None).fields.contains(field("preserved_as"@, Seq::empty())),
        unresolved_record(user, why).severity == crate::logging::Severity::Warn,
        unresolved_record(user, why).fields.contains(field("user"@, user)),
        unresolved_record(user, why).fields.contains(field("error"@, why)),
        warning_record(WarningView::UserNotApplied { user, effective_uid: uid }).severity
            == crate::logging::Severity::Warn,
        warning_record(WarningView::UserNotApplied { user, effective_uid: uid }).fields.contains(
            field("user"@, user),
        ),
        warning_record(WarningView::UserNotApplied { user, effective_uid: uid }).fields.contains(
            field("uid"@, decimal(uid as nat)),
        ),
        warning_record(WarningView::RunningAsRoot).severity == crate::logging::Severity::Warn,
        features_record(features).fields.contains(field("unique_mount_ids"@, "true"@)) <==>
            features.statx_mnt_id_unique is Available,
        features_record(features).fields.contains(field("unique_mount_ids"@, "false"@)) <==>
            features.statx_mnt_id_unique is Missing,
{
    reveal_strlit("true");
    reveal_strlit("false");
    reveal_strlit("msg");
    reveal_strlit("unique_mount_ids");
    let a = missing_state_record(path).fields;
    assert(a[1] == field("path"@, path));
    let b = corrupt_state_record(reason, Some(aside)).fields;
    assert(b[1] == field("reason"@, reason));
    assert(b[2] == field("preserved_as"@, aside));
    let c = corrupt_state_record(reason, None).fields;
    assert(c[2] == field("preserved_as"@, Seq::empty()));
    let d = unresolved_record(user, why).fields;
    assert(d[1] == field("user"@, user));
    assert(d[2] == field("error"@, why));
    let e = warning_record(WarningView::UserNotApplied { user, effective_uid: uid }).fields;
    assert(e[1] == field("user"@, user));
    assert(e[2] == field("uid"@, decimal(uid as nat)));
    let f = features_record(features).fields;
    assert(f.len() == 2);
    assert("true"@.len() != "false"@.len());
    assert("msg"@.len() != "unique_mount_ids"@.len());
    assert(f[1] == f[1] && f[0].key == "msg"@);
}

} // verus!
