//! `byssus check`: whether a reload would accept the configuration, with
//! drop-in fragments added, replaced or left out.
use vstd::prelude::*;
use vstd::slice::slice_to_vec;
use vstd::string::*;
use vstd::utf8::encode_utf8;

use crate::app::{check_views, slave_groups, TargetCheck, TargetCheckView};
use crate::command::{open_views, OpenGroupError, OpenGroupErrorView, RAN_AS_ROOT};
use crate::config::{has_error, is_fragment, is_fragment_name, issue_views, Config, ConfigView, Issue, IssueView, Severity};
use crate::name::Name;
use crate::order::{in_order, lemma_in_both, lemma_in_push, KeySet, Table};
use crate::probe::PropagationCheck;
use crate::reconcile::{set_label, set_text};
use crate::text::texts;

verus! {

/// Where a fragment of a candidate configuration comes from.
#[derive(Debug, Clone, Copy, PartialEq, Eq, Structural)]
pub enum Origin {
    /// It is installed in the drop-in directory.
    Installed,
    /// It is the candidate with this index.
    Added(usize),
}

impl View for Origin {
    type V = Origin;

    open spec fn view(&self) -> Origin {
        *self
    }
}

/// The names that texts stand for.
pub open spec fn name_bytes(names: Seq<String>) -> Seq<Seq<u8>> {
    names.map_values(|n: String| encode_utf8(n@))
}

/// The views of names.
pub open spec fn byte_views(names: Seq<Vec<u8>>) -> Seq<Seq<u8>> {
    names.map_values(|n: Vec<u8>| n@)
}

/// The installed fragments that are not left out.
pub open spec fn kept(installed: Set<Seq<u8>>, removed: Seq<Seq<u8>>) -> Map<Seq<u8>, Origin> {
    Map::new(
        |n: Seq<u8>| installed.contains(n) && !removed.contains(n),
        |n: Seq<u8>| Origin::Installed,
    )
}

/// The fragments of a candidate configuration: those installed that are not
/// left out, and each candidate under its own name, in place of what had it.
pub open spec fn overlaid(
    installed: Set<Seq<u8>>,
    added: Seq<Seq<u8>>,
    removed: Seq<Seq<u8>>,
) -> Map<Seq<u8>, Origin>
    decreases added.len(),
{
    if added.len() == 0 {
        kept(installed, removed)
    } else {
        let front = overlaid(installed, added.drop_last(), removed);
        if is_fragment_name(added.last()) {
            front.insert(added.last(), Origin::Added((added.len() - 1) as usize))
        } else {
            front
        }
    }
}

fn is_among(name: &Vec<u8>, names: &Vec<String>) -> (r: bool)
    ensures
        r == name_bytes(names@).contains(name@),
{
    let ghost all = name_bytes(names@);
    let mut i: usize = 0;
    while i < names.len()
        invariant
            i <= names@.len(),
            all == name_bytes(names@),
            forall|j: int| 0 <= j < i ==> #[trigger] all[j] != name@,
        decreases names@.len() - i,
    {
        assert(all[i as int] == encode_utf8(names@[i as int]@));
        if crate::text::same_bytes(names[i].as_str().as_bytes(), name.as_slice()) {
            assert(all.contains(name@));
            return true;
        }
        i += 1;
    }
    false
}

fn keep(installed: &KeySet<Vec<u8>>, removed: &Vec<String>) -> (r: Table<Vec<u8>, Origin>)
    ensures
        r@ == kept(installed@, name_bytes(removed@)),
{
    let n: usize = installed.len();
    let ghost names = installed.keys();
    let ghost left = name_bytes(removed@);
    let mut out: Table<Vec<u8>, Origin> = Table::new();
    let mut i: usize = 0;
    assert(out@ =~= kept(names.take(0).to_set(), left));
    while i < n
        invariant
            i <= n,
            n == names.len(),
            names == installed.keys(),
            left == name_bytes(removed@),
            out@ == kept(names.take(i as int).to_set(), left),
        decreases n - i,
    {
        let name = installed.at(i);
        let ghost before = out@;
        if !is_among(name, removed) {
            let _ = out.insert(name.clone(), Origin::Installed);
        }
        proof {
            assert(names.take(i + 1) =~= names.take(i as int).push(names[i as int]));
            names.take(i as int).lemma_push_to_set_commute(names[i as int]);
            assert(out@ =~= kept(names.take(i + 1).to_set(), left));
        }
        i += 1;
    }
    assert(names.take(names.len() as int) =~= names);
    out
}

/// The fragments of a candidate configuration, in the order in which they are
/// read.
pub fn overlay(installed: &KeySet<Vec<u8>>, added: &Vec<Vec<u8>>, removed: &Vec<String>) -> (r:
    Table<Vec<u8>, Origin>)
    ensures
        r@ == overlaid(installed@, byte_views(added@), name_bytes(removed@)),
{
    let ghost views = byte_views(added@);
    let ghost left = name_bytes(removed@);
    let mut out = keep(installed, removed);
    let mut i: usize = 0;
    assert(views.take(0) =~= Seq::empty());
    while i < added.len()
        invariant
            i <= added@.len(),
            views == byte_views(added@),
            left == name_bytes(removed@),
            out@ == overlaid(installed@, views.take(i as int), left),
        decreases added@.len() - i,
    {
        proof {
            assert(views.take(i + 1).drop_last() =~= views.take(i as int));
            assert(views.take(i + 1).last() == added@[i as int]@);
        }
        if is_fragment(added[i].as_slice()) {
            let _ = out.insert(added[i].clone(), Origin::Added(i));
        }
        i += 1;
    }
    assert(views.take(views.len() as int) =~= views);
    out
}

/// A candidate is read under its name, and nothing that was left out is.
pub proof fn law_candidates_take_the_place_of_fragments(
    installed: Set<Seq<u8>>,
    added: Seq<Seq<u8>>,
    removed: Seq<Seq<u8>>,
    name: Seq<u8>,
)
    requires
        added.len() <= usize::MAX,
    ensures
        added.contains(name) && is_fragment_name(name) ==> {
            let fragments = overlaid(installed, added, removed);
            &&& fragments.dom().contains(name)
            &&& fragments[name] matches Origin::Added(i) && i < added.len() && added[i as int]
                == name
        },
        !added.contains(name) ==> {
            let fragments = overlaid(installed, added, removed);
            &&& fragments.dom().contains(name) <==> installed.contains(name) && !removed.contains(
                name,
            )
            &&& fragments.dom().contains(name) ==> fragments[name] == Origin::Installed
        },
    decreases added.len(),
{
    if added.len() > 0 {
        let front = added.drop_last();
        law_candidates_take_the_place_of_fragments(installed, front, removed, name);
        assert(added =~= front.push(added.last()));
        if added.contains(name) && name != added.last() {
            let i = added.index_of(name);
            assert(front[i] == name);
        }
        if front.contains(name) {
            let i = front.index_of(name);
            assert(added[i] == name);
        }
    }
}

/// What is wrong with a candidate whose name no fragment can have.
pub open spec fn misnamed(path: Seq<char>) -> IssueView {
    IssueView {
        severity: Severity::Error,
        file: Some(path),
        group: None,
        message: "not a drop-in fragment: the file name must end in '.toml' and not begin with '.'"@,
    }
}

/// What is wrong with leaving out a fragment that is not installed.
pub open spec fn not_installed(name: Seq<char>) -> IssueView {
    IssueView {
        severity: Severity::Error,
        file: Some(name),
        group: None,
        message: "no such drop-in fragment is installed"@,
    }
}

/// What is wrong with the candidates.
pub open spec fn misnamed_issues(paths: Seq<Seq<char>>, names: Seq<Seq<u8>>) -> Seq<IssueView>
    decreases names.len(),
{
    if names.len() == 0 {
        Seq::empty()
    } else {
        let front = misnamed_issues(paths, names.drop_last());
        if is_fragment_name(names.last()) {
            front
        } else {
            front.push(misnamed(paths[names.len() - 1]))
        }
    }
}

/// What is wrong with what is left out.
pub open spec fn not_installed_issues(installed: Set<Seq<u8>>, removed: Seq<Seq<char>>) -> Seq<
    IssueView,
>
    decreases removed.len(),
{
    if removed.len() == 0 {
        Seq::empty()
    } else {
        let front = not_installed_issues(installed, removed.drop_last());
        if installed.contains(encode_utf8(removed.last())) {
            front
        } else {
            front.push(not_installed(removed.last()))
        }
    }
}

/// Judges what was asked for: each candidate, given by its path and its file
/// name, has to be named as a fragment, and what is left out has to be
/// installed.
pub fn overlay_issues(
    installed: &KeySet<Vec<u8>>,
    paths: &Vec<String>,
    added: &Vec<Vec<u8>>,
    removed: &Vec<String>,
    issues: &mut Vec<Issue>,
)
    requires
        paths@.len() == added@.len(),
    ensures
        issue_views(final(issues)@) == issue_views(old(issues)@) + misnamed_issues(
            texts(paths@),
            byte_views(added@),
        ) + not_installed_issues(installed@, texts(removed@)),
{
    let ghost start = issue_views(issues@);
    let ghost files = texts(paths@);
    let ghost names = byte_views(added@);
    let mut i: usize = 0;
    assert(issue_views(issues@) =~= start + misnamed_issues(files, names.take(0)));
    while i < added.len()
        invariant
            i <= added@.len(),
            paths@.len() == added@.len(),
            files == texts(paths@),
            names == byte_views(added@),
            issue_views(issues@) == start + misnamed_issues(files, names.take(i as int)),
        decreases added@.len() - i,
    {
        proof {
            assert(names.take(i + 1).drop_last() =~= names.take(i as int));
            assert(names.take(i + 1).last() == added@[i as int]@);
            assert(files[i as int] == paths@[i as int]@);
        }
        if !is_fragment(added[i].as_slice()) {
            let ghost before = issue_views(issues@);
            let issue = Issue {
                severity: Severity::Error,
                file: Some(paths[i].clone()),
                group: None,
                message:
                    "not a drop-in fragment: the file name must end in '.toml' and not begin with '.'".to_owned(),
            };
            let ghost added_issue = issue@;
            assert(added_issue =~= misnamed(files[i as int]));
            issues.push(issue);
            assert(issue_views(issues@) =~= before.push(added_issue));
        }
        assert(issue_views(issues@) =~= start + misnamed_issues(files, names.take(i + 1)));
        i += 1;
    }
    assert(names.take(names.len() as int) =~= names);
    let ghost middle = issue_views(issues@);
    let ghost left = texts(removed@);
    let mut j: usize = 0;
    assert(issue_views(issues@) =~= middle + not_installed_issues(installed@, left.take(0)));
    while j < removed.len()
        invariant
            j <= removed@.len(),
            left == texts(removed@),
            issue_views(issues@) == middle + not_installed_issues(
                installed@,
                left.take(j as int),
            ),
        decreases removed@.len() - j,
    {
        proof {
            assert(left.take(j + 1).drop_last() =~= left.take(j as int));
            assert(left.take(j + 1).last() == removed@[j as int]@);
        }
        let name = slice_to_vec(removed[j].as_str().as_bytes());
        if !installed.contains(&name) {
            let ghost before = issue_views(issues@);
            let issue = Issue {
                severity: Severity::Error,
                file: Some(removed[j].clone()),
                group: None,
                message: "no such drop-in fragment is installed".to_owned(),
            };
            let ghost added_issue = issue@;
            assert(added_issue =~= not_installed(left[j as int]));
            issues.push(issue);
            assert(issue_views(issues@) =~= before.push(added_issue));
        }
        assert(issue_views(issues@) =~= middle + not_installed_issues(
            installed@,
            left.take(j + 1),
        ));
        j += 1;
    }
    assert(left.take(left.len() as int) =~= left);
}

// The report.

/// What came of checking a configuration.
#[derive(Debug, PartialEq, Eq)]
pub struct CheckReport {
    /// Whether a reload would accept the configuration.
    pub valid: bool,
    /// The groups, and the labels of the group sets.
    pub groups: Vec<String>,
    /// What is worth a warning.
    pub warnings: Vec<String>,
    /// Why the configuration would be rejected.
    pub errors: Vec<String>,
}

/// What a report stands for.
#[verifier::ext_equal]
pub struct CheckReportView {
    /// Whether a reload would accept the configuration.
    pub valid: bool,
    /// The groups, and the labels of the group sets.
    pub groups: Seq<Seq<char>>,
    /// What is worth a warning.
    pub warnings: Seq<Seq<char>>,
    /// Why the configuration would be rejected.
    pub errors: Seq<Seq<char>>,
}

impl View for CheckReport {
    type V = CheckReportView;

    open spec fn view(&self) -> CheckReportView {
        CheckReportView {
            valid: self.valid,
            groups: texts(self.groups@),
            warnings: texts(self.warnings@),
            errors: texts(self.errors@),
        }
    }
}

/// The texts of the issues of a severity, in order.
pub open spec fn issue_texts(issues: Seq<IssueView>, severity: Severity) -> Seq<Seq<char>>
    decreases issues.len(),
{
    if issues.len() == 0 {
        Seq::empty()
    } else {
        let front = issue_texts(issues.drop_last(), severity);
        if issues.last().severity == severity {
            front.push(issues.last().text())
        } else {
            front
        }
    }
}

/// What is said of the propagation of a target root.
pub open spec fn target_text(c: TargetCheckView) -> Seq<char> {
    "group '"@ + c.group + "': target_root "@ + c.target_root + ": propagation is "@
        + c.check.text()
}

/// Whether the propagation of a target root is refused.
pub open spec fn is_refused(c: TargetCheckView, allow_slave: bool) -> bool {
    c.check is SlaveOnly && !allow_slave
}

/// What is said of the target roots that are refused, or of the others that do
/// not propagate mounts.
pub open spec fn target_texts(checks: Seq<TargetCheckView>, allow_slave: bool, refused: bool) -> Seq<
    Seq<char>,
>
    decreases checks.len(),
{
    if checks.len() == 0 {
        Seq::empty()
    } else {
        let front = target_texts(checks.drop_last(), allow_slave, refused);
        let c = checks.last();
        if !(c.check is Shared) && is_refused(c, allow_slave) == refused {
            front.push(target_text(c))
        } else {
            front
        }
    }
}

/// The groups and group sets of a configuration, in order.
pub open spec fn labels(config: ConfigView) -> Seq<Seq<char>> {
    in_order::<Name>(config.groups.dom()) + in_order::<Name>(config.sets.dom()).map_values(
        |n: Seq<char>| set_label(n),
    )
}

/// The report on a configuration.
pub open spec fn checked(
    config: ConfigView,
    issues: Seq<IssueView>,
    as_root: bool,
    unopened: Seq<OpenGroupErrorView>,
    targets: Seq<TargetCheckView>,
    allow_slave: bool,
) -> CheckReportView {
    let errors = issue_texts(issues, Severity::Error) + unopened.map_values(
        |e: OpenGroupErrorView| e.text(),
    ) + target_texts(targets, allow_slave, true);
    CheckReportView {
        valid: errors.len() == 0,
        groups: labels(config),
        warnings: issue_texts(issues, Severity::Warning) + (if as_root {
            seq![RAN_AS_ROOT@]
        } else {
            Seq::empty()
        }) + target_texts(targets, allow_slave, false),
        errors,
    }
}

fn push_issue_texts(out: &mut Vec<String>, issues: &Vec<Issue>, severity: Severity)
    ensures
        texts(final(out)@) == texts(old(out)@) + issue_texts(issue_views(issues@), severity),
{
    let ghost start = texts(out@);
    let ghost views = issue_views(issues@);
    let mut i: usize = 0;
    assert(texts(out@) =~= start + issue_texts(views.take(0), severity));
    while i < issues.len()
        invariant
            i <= issues@.len(),
            views == issue_views(issues@),
            texts(out@) == start + issue_texts(views.take(i as int), severity),
        decreases issues@.len() - i,
    {
        let ghost before = texts(out@);
        let issue = &issues[i];
        proof {
            assert(views.take(i + 1).drop_last() =~= views.take(i as int));
            assert(views.take(i + 1).last() == issue@);
        }
        if issue.severity == severity {
            let text = issue.text();
            let ghost added = text@;
            out.push(text);
            assert(texts(out@) =~= before.push(added));
        }
        assert(texts(out@) =~= start + issue_texts(views.take(i + 1), severity));
        i += 1;
    }
    assert(views.take(views.len() as int) =~= views);
}

fn push_target_texts(
    out: &mut Vec<String>,
    targets: &Vec<TargetCheck>,
    allow_slave: bool,
    refused: bool,
)
    ensures
        texts(final(out)@) == texts(old(out)@) + target_texts(
            check_views(targets@),
            allow_slave,
            refused,
        ),
{
    let ghost start = texts(out@);
    let ghost views = check_views(targets@);
    let mut i: usize = 0;
    assert(texts(out@) =~= start + target_texts(views.take(0), allow_slave, refused));
    while i < targets.len()
        invariant
            i <= targets@.len(),
            views == check_views(targets@),
            texts(out@) == start + target_texts(views.take(i as int), allow_slave, refused),
        decreases targets@.len() - i,
    {
        let ghost before = texts(out@);
        let c = &targets[i];
        proof {
            assert(views.take(i + 1).drop_last() =~= views.take(i as int));
            assert(views.take(i + 1).last() == c@);
        }
        let shared = match &c.check {
            PropagationCheck::Shared => true,
            _ => false,
        };
        let slave = match &c.check {
            PropagationCheck::SlaveOnly => true,
            _ => false,
        };
        if !shared && (slave && !allow_slave) == refused {
            let mut text = "group '".to_owned();
            text.append(c.group.as_str());
            text.append("': target_root ");
            text.append(c.target_root.as_path());
            text.append(": propagation is ");
            text.append(c.check.describe().as_str());
            assert(text@ =~= target_text(c@));
            let ghost added = text@;
            out.push(text);
            assert(texts(out@) =~= before.push(added));
        }
        assert(texts(out@) =~= start + target_texts(views.take(i + 1), allow_slave, refused));
        i += 1;
    }
    assert(views.take(views.len() as int) =~= views);
}

fn push_unopened(out: &mut Vec<String>, errors: &Vec<OpenGroupError>)
    ensures
        texts(final(out)@) == texts(old(out)@) + open_views(errors@).map_values(
            |e: OpenGroupErrorView| e.text(),
        ),
{
    let ghost start = texts(out@);
    let ghost all = open_views(errors@).map_values(|e: OpenGroupErrorView| e.text());
    let mut i: usize = 0;
    assert(texts(out@) =~= start + all.take(0));
    while i < errors.len()
        invariant
            i <= errors@.len(),
            all == open_views(errors@).map_values(|e: OpenGroupErrorView| e.text()),
            texts(out@) == start + all.take(i as int),
        decreases errors@.len() - i,
    {
        let ghost before = texts(out@);
        assert(open_views(errors@)[i as int] == errors@[i as int]@);
        out.push(errors[i].message());
        assert(texts(out@) =~= before.push(all[i as int]));
        assert(start + all.take(i + 1) =~= (start + all.take(i as int)).push(all[i as int]));
        i += 1;
    }
    assert(all.take(all.len() as int) =~= all);
}

fn labels_of(config: &Config) -> (r: Vec<String>)
    ensures
        texts(r@) == labels(config@),
{
    let ghost all = labels(config@);
    let ghost names = config.groups.keys();
    let ghost sets = config.sets.keys();
    let n: usize = config.groups.len();
    let mut out: Vec<String> = Vec::new();
    let mut i: usize = 0;
    assert(texts(out@) =~= all.take(0));
    while i < n
        invariant
            i <= n,
            n == names.len(),
            names == config.groups.keys(),
            sets == config.sets.keys(),
            all == labels(config@),
            texts(out@) == all.take(i as int),
        decreases n - i,
    {
        let ghost before = texts(out@);
        out.push(config.groups.key_at(i).as_str().to_owned());
        assert(texts(out@) =~= before.push(all[i as int]));
        assert(all.take(i + 1) =~= all.take(i as int).push(all[i as int]));
        i += 1;
    }
    let m: usize = config.sets.len();
    let mut j: usize = 0;
    while j < m
        invariant
            j <= m,
            m == sets.len(),
            n == names.len(),
            names == config.groups.keys(),
            sets == config.sets.keys(),
            all == labels(config@),
            texts(out@) == all.take(n + j),
        decreases m - j,
    {
        let ghost before = texts(out@);
        out.push(set_text(config.sets.key_at(j)));
        assert(texts(out@) =~= before.push(all[n + j]));
        assert(all.take(n + j + 1) =~= all.take(n + j).push(all[n + j]));
        j += 1;
    }
    assert(all.take(all.len() as int) =~= all);
    out
}

/// The report on a configuration: `issues` is everything that was found wrong
/// with its files and paths, `unopened` the groups whose directories could not
/// be opened, `targets` what came of checking the target roots of the others,
/// and `as_root` says that the checks ran as root for want of a service user.
pub fn check(
    config: &Config,
    issues: &Vec<Issue>,
    as_root: bool,
    unopened: &Vec<OpenGroupError>,
    targets: &Vec<TargetCheck>,
    allow_slave: bool,
) -> (r: CheckReport)
    ensures
        r@ == checked(
            config@,
            issue_views(issues@),
            as_root,
            open_views(unopened@),
            check_views(targets@),
            allow_slave,
        ),
{
    let ghost expected = checked(
        config@,
        issue_views(issues@),
        as_root,
        open_views(unopened@),
        check_views(targets@),
        allow_slave,
    );
    let mut errors: Vec<String> = Vec::new();
    assert(texts(errors@) =~= Seq::empty());
    push_issue_texts(&mut errors, issues, Severity::Error);
    push_unopened(&mut errors, unopened);
    push_target_texts(&mut errors, targets, allow_slave, true);
    assert(texts(errors@) =~= expected.errors);
    let mut warnings: Vec<String> = Vec::new();
    assert(texts(warnings@) =~= Seq::empty());
    push_issue_texts(&mut warnings, issues, Severity::Warning);
    if as_root {
        let ghost before = texts(warnings@);
        warnings.push(RAN_AS_ROOT.to_owned());
        assert(texts(warnings@) =~= before.push(RAN_AS_ROOT@));
    }
    push_target_texts(&mut warnings, targets, allow_slave, false);
    assert(texts(warnings@) =~= expected.warnings);
    assert(texts(errors@).len() == errors@.len());
    let groups = labels_of(config);
    let valid = errors.len() == 0;
    CheckReport { valid, groups, warnings, errors }
}

proof fn lemma_no_issue_texts(issues: Seq<IssueView>)
    ensures
        issue_texts(issues, Severity::Error).len() == 0 <==> !has_error(issues),
    decreases issues.len(),
{
    if issues.len() > 0 {
        let front = issues.drop_last();
        lemma_no_issue_texts(front);
        if has_error(issues) && issues.last().severity != Severity::Error {
            let i = choose|i: int|
                0 <= i < issues.len() && (#[trigger] issues[i]).severity == Severity::Error;
            assert(front[i] == issues[i]);
        }
        if has_error(front) {
            let i = choose|i: int|
                0 <= i < front.len() && (#[trigger] front[i]).severity == Severity::Error;
            assert(issues[i] == front[i]);
        }
        if issues.last().severity == Severity::Error {
            assert(issues[issues.len() - 1].severity == Severity::Error);
        }
    }
}

proof fn lemma_no_refused(checks: Seq<TargetCheckView>, allow_slave: bool)
    ensures
        target_texts(checks, allow_slave, true).len() == 0 <==> slave_groups(checks).len() == 0
            || allow_slave,
    decreases checks.len(),
{
    if checks.len() > 0 {
        lemma_no_refused(checks.drop_last(), allow_slave);
    }
}

/// A configuration is found valid exactly when a reload would accept it: no
/// issue is an error, every group opens, and the propagation of every target
/// root is accepted.
pub proof fn law_check_accepts_what_a_reload_accepts(
    config: ConfigView,
    issues: Seq<IssueView>,
    as_root: bool,
    unopened: Seq<OpenGroupErrorView>,
    targets: Seq<TargetCheckView>,
    allow_slave: bool,
)
    ensures
        checked(config, issues, as_root, unopened, targets, allow_slave).valid <==> {
            &&& !has_error(issues)
            &&& unopened.len() == 0
            &&& slave_groups(targets).len() == 0 || allow_slave
        },
{
    lemma_no_issue_texts(issues);
    lemma_no_refused(targets, allow_slave);
}

/// One line per text.
pub open spec fn prefixed(prefix: Seq<char>, all: Seq<Seq<char>>) -> Seq<char>
    decreases all.len(),
{
    if all.len() == 0 {
        Seq::empty()
    } else {
        prefixed(prefix, all.drop_last()) + prefix + all.last() + "\n"@
    }
}

fn push_prefixed(out: &mut String, prefix: &str, all: &Vec<String>)
    ensures
        final(out)@ == old(out)@ + prefixed(prefix@, texts(all@)),
{
    let ghost start = out@;
    let ghost views = texts(all@);
    let mut i: usize = 0;
    assert(out@ =~= start + prefixed(prefix@, views.take(0)));
    while i < all.len()
        invariant
            i <= all@.len(),
            views == texts(all@),
            out@ == start + prefixed(prefix@, views.take(i as int)),
        decreases all@.len() - i,
    {
        proof {
            assert(views.take(i + 1).drop_last() =~= views.take(i as int));
            assert(views.take(i + 1).last() == all@[i as int]@);
        }
        out.append(prefix);
        out.append(all[i].as_str());
        out.append("\n");
        assert(out@ =~= start + prefixed(prefix@, views.take(i + 1)));
        i += 1;
    }
    assert(views.take(views.len() as int) =~= views);
}

impl CheckReportView {
    /// The report as text.
    pub open spec fn text(self) -> Seq<char> {
        prefixed("group: "@, self.groups) + prefixed("warning: "@, self.warnings) + prefixed(
            "error: "@,
            self.errors,
        ) + (if self.valid {
            "result: valid\n"@
        } else {
            "result: invalid\n"@
        })
    }
}

impl CheckReport {
    /// Renders the report as text.
    pub fn to_text(&self) -> (r: String)
        ensures
            r@ == self@.text(),
    {
        let mut out = String::new();
        push_prefixed(&mut out, "group: ", &self.groups);
        push_prefixed(&mut out, "warning: ", &self.warnings);
        push_prefixed(&mut out, "error: ", &self.errors);
        if self.valid {
            out.append("result: valid\n");
        } else {
            out.append("result: invalid\n");
        }
        assert(out@ =~= self@.text());
        out
    }
}

// Laws.

proof fn lemma_issue_texts(issues: Seq<IssueView>, severity: Severity, text: Seq<char>)
    ensures
        issue_texts(issues, severity).contains(text) <==> exists|i: int|
            #![trigger issues[i]]
            0 <= i < issues.len() && issues[i].severity == severity && issues[i].text() == text,
    decreases issues.len(),
{
    if issues.len() > 0 {
        let front = issues.drop_last();
        lemma_issue_texts(front, severity, text);
        assert(issues[issues.len() - 1] == issues.last());
        assert forall|i: int| 0 <= i < front.len() implies #[trigger] issues[i] == front[i] by {
        }
        assert forall|i: int| 0 <= i < front.len() implies #[trigger] front[i] == issues[i] by {
        }
        lemma_in_push(issue_texts(front, severity), issues.last().text(), text);
    } else {
        assert(!issue_texts(issues, severity).contains(text));
    }
}

proof fn lemma_target_texts(
    checks: Seq<TargetCheckView>,
    allow_slave: bool,
    refused: bool,
    text: Seq<char>,
)
    ensures
        target_texts(checks, allow_slave, refused).contains(text) <==> exists|i: int|
            #![trigger checks[i]]
            0 <= i < checks.len() && !(checks[i].check is Shared) && (refused <==> checks[i].check
                is SlaveOnly && !allow_slave) && target_text(checks[i]) == text,
    decreases checks.len(),
{
    if checks.len() > 0 {
        let front = checks.drop_last();
        lemma_target_texts(front, allow_slave, refused, text);
        assert(checks[checks.len() - 1] == checks.last());
        assert forall|i: int| 0 <= i < front.len() implies #[trigger] checks[i] == front[i] by {
        }
        assert forall|i: int| 0 <= i < front.len() implies #[trigger] front[i] == checks[i] by {
        }
        lemma_in_push(
            target_texts(front, allow_slave, refused),
            target_text(checks.last()),
            text,
        );
    } else {
        assert(!target_texts(checks, allow_slave, refused).contains(text));
    }
}

/// What a report gives as errors are the issues that are errors, the groups that
/// do not open, and the target roots on slave mounts where those are not
/// allowed. What it gives as warnings are the issues that are warnings, that
/// root ran the checks, and the other target roots that are not shared.
pub proof fn law_reports_tell_errors_from_warnings(
    config: ConfigView,
    issues: Seq<IssueView>,
    as_root: bool,
    unopened: Seq<OpenGroupErrorView>,
    targets: Seq<TargetCheckView>,
    allow_slave: bool,
    text: Seq<char>,
)
    ensures
        ({
            let report = checked(config, issues, as_root, unopened, targets, allow_slave);
            &&& report.errors.contains(text) <==> {
                ||| exists|i: int|
                    #![trigger issues[i]]
                    0 <= i < issues.len() && issues[i].severity == Severity::Error
                        && issues[i].text() == text
                ||| exists|i: int|
                    0 <= i < unopened.len() && (#[trigger] unopened[i]).text() == text
                ||| exists|i: int|
                    #![trigger targets[i]]
                    0 <= i < targets.len() && targets[i].check is SlaveOnly && !allow_slave
                        && target_text(targets[i]) == text
            }
            &&& report.warnings.contains(text) <==> {
                ||| exists|i: int|
                    #![trigger issues[i]]
                    0 <= i < issues.len() && issues[i].severity == Severity::Warning
                        && issues[i].text() == text
                ||| as_root && text == "checks ran as root because daemon.user is not set"@
                ||| exists|i: int|
                    #![trigger targets[i]]
                    0 <= i < targets.len() && !(targets[i].check is Shared) && (allow_slave
                        || !(targets[i].check is SlaveOnly)) && target_text(targets[i]) == text
            }
            &&& report.valid <==> report.errors.len() == 0
        }),
{
    let a = issue_texts(issues, Severity::Error);
    let b = unopened.map_values(|e: OpenGroupErrorView| e.text());
    let c = target_texts(targets, allow_slave, true);
    lemma_in_both(a + b, c, text);
    lemma_in_both(a, b, text);
    lemma_issue_texts(issues, Severity::Error, text);
    lemma_target_texts(targets, allow_slave, true, text);
    if b.contains(text) {
        let i = choose|i: int| 0 <= i < b.len() && b[i] == text;
        assert(unopened[i].text() == text);
    }
    if exists|i: int| 0 <= i < unopened.len() && (#[trigger] unopened[i]).text() == text {
        let i = choose|i: int| 0 <= i < unopened.len() && (#[trigger] unopened[i]).text() == text;
        assert(b[i] == text);
    }
    let d = issue_texts(issues, Severity::Warning);
    let e = if as_root {
        seq![RAN_AS_ROOT@]
    } else {
        Seq::empty()
    };
    let f = target_texts(targets, allow_slave, false);
    lemma_in_both(d + e, f, text);
    lemma_in_both(d, e, text);
    lemma_issue_texts(issues, Severity::Warning, text);
    lemma_target_texts(targets, allow_slave, false, text);
    if as_root {
        assert(e[0] == RAN_AS_ROOT@);
    }
}

/// A report lists every group by its name and every group set by its label.
pub proof fn law_reports_list_the_groups(
    config: ConfigView,
    issues: Seq<IssueView>,
    as_root: bool,
    unopened: Seq<OpenGroupErrorView>,
    targets: Seq<TargetCheckView>,
    allow_slave: bool,
    name: Seq<char>,
)
    requires
        config.groups.dom().finite(),
        config.sets.dom().finite(),
    ensures
        ({
            let report = checked(config, issues, as_root, unopened, targets, allow_slave);
            &&& config.groups.contains_key(name) ==> report.groups.contains(name)
            &&& config.sets.contains_key(name) ==> report.groups.contains(name + "/*"@)
            &&& report.groups.contains(name) ==> config.groups.contains_key(name) || exists|
                set: Seq<char>,
            | #[trigger]
                config.sets.contains_key(set) && name == set + "/*"@
        }),
{
    let gn = in_order::<Name>(config.groups.dom());
    let sn = in_order::<Name>(config.sets.dom());
    let labelled = sn.map_values(|n: Seq<char>| set_label(n));
    crate::order::lemma_in_order_finite::<Name>(config.groups.dom());
    crate::order::lemma_in_order_finite::<Name>(config.sets.dom());
    assert(gn.to_set().contains(name) <==> gn.contains(name));
    assert(sn.to_set().contains(name) <==> sn.contains(name));
    lemma_in_both(gn, labelled, name);
    lemma_in_both(gn, labelled, name + "/*"@);
    if config.sets.contains_key(name) {
        let i = choose|i: int| 0 <= i < sn.len() && sn[i] == name;
        assert(labelled[i] == name + "/*"@);
    }
    if labelled.contains(name) {
        let i = choose|i: int| 0 <= i < labelled.len() && labelled[i] == name;
        assert(sn.contains(sn[i]));
        assert(sn.to_set().contains(sn[i]));
        assert(config.sets.contains_key(sn[i]));
    }
}

/// A candidate is refused exactly if its file name is not that of a fragment,
/// and the error names its path.
pub proof fn law_misnamed_candidates_are_refused(
    paths: Seq<Seq<char>>,
    names: Seq<Seq<u8>>,
    issue: IssueView,
)
    ensures
        misnamed_issues(paths, names).contains(issue) <==> exists|i: int|
            #![trigger names[i]]
            0 <= i < names.len() && !is_fragment_name(names[i]) && issue == misnamed(paths[i]),
        issue == misnamed(paths[0]) ==> issue.severity == Severity::Error && issue.file == Some(
            paths[0],
        ),
    decreases names.len(),
{
    if names.len() > 0 {
        let front = names.drop_last();
        law_misnamed_candidates_are_refused(paths, front, issue);
        let n = names.len() - 1;
        assert(names[n] == names.last());
        assert forall|i: int| 0 <= i < front.len() implies #[trigger] names[i] == front[i] by {
        }
        assert forall|i: int| 0 <= i < front.len() implies #[trigger] front[i] == names[i] by {
        }
        lemma_in_push(misnamed_issues(paths, front), misnamed(paths[n]), issue);
    } else {
        assert(!misnamed_issues(paths, names).contains(issue));
    }
}

/// A fragment can be left out exactly if it is installed; that one is not is an
/// error that names it.
pub proof fn law_only_installed_fragments_are_left_out(
    installed: Set<Seq<u8>>,
    removed: Seq<Seq<char>>,
    name: Seq<char>,
)
    ensures
        not_installed_issues(installed, removed).contains(
            IssueView {
                severity: Severity::Error,
                file: Some(name),
                group: None,
                message: "no such drop-in fragment is installed"@,
            },
        ) <==> removed.contains(name) && !installed.contains(encode_utf8(name)),
    decreases removed.len(),
{
    let issue = IssueView {
        severity: Severity::Error,
        file: Some(name),
        group: None,
        message: "no such drop-in fragment is installed"@,
    };
    if removed.len() > 0 {
        let front = removed.drop_last();
        law_only_installed_fragments_are_left_out(installed, front, name);
        assert(front.push(removed.last()) =~= removed);
        lemma_in_push(front, removed.last(), name);
        lemma_in_push(
            not_installed_issues(installed, front),
            not_installed(removed.last()),
            issue,
        );
    } else {
        assert(!not_installed_issues(installed, removed).contains(issue));
        assert(!removed.contains(name));
    }
}

/// What is said of a target root names its group, its path and how it
/// propagates.
pub proof fn law_target_texts_name_the_target(c: TargetCheckView)
    ensures
        target_text(c) == "group '"@ + c.group + "': target_root "@ + c.target_root
            + ": propagation is "@ + c.check.text(),
{
}

/// A report ends with its result.
pub proof fn law_reports_end_with_the_result(r: CheckReportView)
    ensures
        r.valid ==> "result: valid\n"@.is_suffix_of(r.text()),
        !r.valid ==> "result: invalid\n"@.is_suffix_of(r.text()),
{
    let last = if r.valid {
        "result: valid\n"@
    } else {
        "result: invalid\n"@
    };
    assert(r.text().subrange(r.text().len() - last.len(), r.text().len() as int) =~= last);
}

} // verus!
