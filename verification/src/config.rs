//! Configuration: the validated types, and validation.
//!
//! Configuration is TOML: a main file plus drop-in fragments. Loading is
//! all-or-nothing: it either gives a fully validated [`Config`] or a list of
//! every problem found, so a reload can never apply a partially valid
//! configuration.
//!
//! Files are read and parsed by the program. What is decided from their
//! contents is decided here, in this order: [`gather`] says which files there
//! are, [`ownership_issues`] judges who may write them, [`assemble`] validates
//! what they say, [`path_issue`] judges the directories they name, and
//! [`settle`] settles what comes of them.
use vstd::prelude::*;
use vstd::string::*;

use crate::name::{check_text, Name};
use crate::order::{in_order, KeySet, Table};
use crate::path::{check_path, components, AbsPathErrorView};
use crate::reconcile::{set_label, set_text};
use crate::sets::{assemble_set_files, check_cross_set, collect_sets, set_cross_issues, GroupSetConfig, RawSet, RawSetView, SetView};
use crate::template::{bound_template, parse_template, Template, TemplateErrorView, TemplateView};
use crate::text::{byte_len, chars_of, decimal, digit, push_decimal, texts};

pub use crate::path::{AbsPath, AbsPathError};

verus! {

/// Default main configuration file.
pub const DEFAULT_CONFIG_FILE: &'static str = "/etc/byssus/byssus.toml";

/// Default drop-in fragment directory.
pub const DEFAULT_CONFIG_DIR: &'static str = "/etc/byssus/conf.d";

/// Default state directory.
pub const DEFAULT_STATE_DIR: &'static str = "/var/lib/byssus";

/// Default periodic resync interval in seconds.
pub const DEFAULT_RESYNC_INTERVAL_SECS: u64 = 60;

/// Largest accepted resync interval (one day).
pub const MAX_RESYNC_INTERVAL_SECS: u64 = 86_400;

/// Configurable mount attributes. `nosuid` and `nodev` are always applied and
/// therefore not represented here.
#[derive(Debug, Clone, Copy, PartialEq, Eq, Hash, Structural)]
pub struct MountAttrs {
    /// Apply `MOUNT_ATTR_RDONLY`.
    pub read_only: bool,
    /// Apply `MOUNT_ATTR_NOEXEC`.
    pub noexec: bool,
    /// Apply `MOUNT_ATTR_NOSYMFOLLOW`.
    pub nosymfollow: bool,
}

impl MountAttrs {
    /// The attributes of a group that configures none.
    pub open spec fn defaults() -> MountAttrs {
        MountAttrs { read_only: true, noexec: true, nosymfollow: false }
    }
}

impl Default for MountAttrs {
    fn default() -> (r: Self)
        ensures
            r == MountAttrs::defaults(),
    {
        MountAttrs { read_only: true, noexec: true, nosymfollow: false }
    }
}

/// Text, where it may be absent.
pub open spec fn optional_text(s: Option<String>) -> Option<Seq<char>> {
    match s {
        Some(s) => Some(s@),
        None => None,
    }
}

/// Settings for the daemon process.
#[derive(Debug, PartialEq, Eq)]
pub struct DaemonConfig {
    /// Service user to switch to when started as root.
    pub user: Option<String>,
    /// Directory containing the state file and lock.
    pub state_dir: AbsPath,
    /// Periodic full reconcile interval in seconds, or `None` if disabled.
    pub resync_interval: Option<u64>,
}

/// What daemon settings stand for.
#[verifier::ext_equal]
pub struct DaemonView {
    /// Service user.
    pub user: Option<Seq<char>>,
    /// State directory.
    pub state_dir: Seq<char>,
    /// Resync interval in seconds.
    pub resync_interval: Option<u64>,
}

impl View for DaemonConfig {
    type V = DaemonView;

    open spec fn view(&self) -> DaemonView {
        DaemonView {
            user: optional_text(self.user),
            state_dir: self.state_dir@,
            resync_interval: self.resync_interval,
        }
    }
}

/// The state directory of a daemon that configures none.
pub open spec fn default_state_dir() -> Seq<char> {
    DEFAULT_STATE_DIR@
}

impl DaemonView {
    /// The settings of a daemon that configures none.
    pub open spec fn defaults() -> DaemonView {
        DaemonView {
            user: None,
            state_dir: default_state_dir(),
            resync_interval: Some(DEFAULT_RESYNC_INTERVAL_SECS),
        }
    }
}

proof fn lemma_default_state_dir_valid()
    ensures
        check_path(default_state_dir()) == Ok::<Seq<char>, AbsPathErrorView>(default_state_dir()),
{
    let s = default_state_dir();
    reveal_strlit("/var/lib/byssus");
    let rest = s.drop_first();
    let parts = seq![
        seq!['v', 'a', 'r'],
        seq!['l', 'i', 'b'],
        seq!['b', 'y', 's', 's', 'u', 's'],
    ];
    assert(rest =~= seq![
        'v', 'a', 'r', '/', 'l', 'i', 'b', '/', 'b', 'y', 's', 's', 'u', 's',
    ]);
    assert forall|i: int| 0 <= i < parts.len() implies !(#[trigger] parts[i]).contains('/') by {
        assert forall|k: int| 0 <= k < parts[i].len() implies parts[i][k] != '/' by {
            assert(i == 0 || i == 1 || i == 2);
        }
    }
    crate::text::lemma_split_join(parts, '/');
    let two = parts.drop_last();
    assert(two =~= seq![parts[0], parts[1]]);
    assert(two.drop_last() =~= seq![parts[0]]);
    assert(crate::text::join(two.drop_last(), seq!['/']) == parts[0]);
    assert(crate::text::join(two, seq!['/']) =~= seq!['v', 'a', 'r', '/', 'l', 'i', 'b']);
    assert(crate::text::join(parts, seq!['/']) =~= rest);
    assert(rest.last() == 's');
    assert(crate::path::without_trailing_slash(rest) == rest);
    assert(parts[0].len() == 3 && parts[1].len() == 3 && parts[2].len() == 6);
    assert(crate::path::component_error(two.drop_last().drop_last()) is None);
    assert(crate::path::component_error(two.drop_last()) is None);
    assert(crate::path::component_error(two) is None);
    assert(crate::path::component_error(parts) is None);
    assert(!s.contains('\0')) by {
        assert forall|k: int| 0 <= k < s.len() implies s[k] != '\0' by {}
    }
    assert(seq!['/'] + rest =~= s);
}

impl Default for DaemonConfig {
    fn default() -> (r: Self)
        ensures
            r@ == DaemonView::defaults(),
    {
        proof {
            lemma_default_state_dir_valid();
        }
        let state_dir = AbsPath::new(DEFAULT_STATE_DIR).unwrap();
        DaemonConfig { user: None, state_dir, resync_interval: Some(DEFAULT_RESYNC_INTERVAL_SECS) }
    }
}

/// A validated group definition.
#[derive(Debug, PartialEq, Eq)]
pub struct GroupConfig {
    /// Group name.
    pub name: Name,
    /// Trusted root beneath which sources are resolved.
    pub source_root: AbsPath,
    /// Source template relative to `source_root`.
    pub source: Template,
    /// Trusted root beneath which views are mounted.
    pub target_root: AbsPath,
    /// Target template relative to `target_root`.
    pub target: Template,
    /// Membership directory.
    pub membership: AbsPath,
    /// Mount attributes.
    pub attrs: MountAttrs,
    /// The file that defined this group.
    pub origin: String,
}

/// What a group definition stands for.
#[verifier::ext_equal]
pub struct GroupView {
    /// Group name.
    pub name: Seq<char>,
    /// Source root.
    pub source_root: Seq<char>,
    /// Source template.
    pub source: TemplateView,
    /// Target root.
    pub target_root: Seq<char>,
    /// Target template.
    pub target: TemplateView,
    /// Membership directory.
    pub membership: Seq<char>,
    /// Mount attributes.
    pub attrs: MountAttrs,
    /// The file that defined this group.
    pub origin: Seq<char>,
}

impl View for GroupConfig {
    type V = GroupView;

    open spec fn view(&self) -> GroupView {
        GroupView {
            name: self.name@,
            source_root: self.source_root@,
            source: self.source@,
            target_root: self.target_root@,
            target: self.target@,
            membership: self.membership@,
            attrs: self.attrs,
            origin: self.origin@,
        }
    }
}

/// A complete, validated configuration.
#[derive(Debug, PartialEq, Eq)]
pub struct Config {
    /// Daemon settings.
    pub daemon: DaemonConfig,
    /// Groups by name.
    pub groups: Table<Name, GroupConfig>,
    /// Group sets by name.
    pub sets: Table<Name, GroupSetConfig>,
    /// Files that were read, in order.
    pub files: Vec<String>,
}

/// What a configuration stands for.
#[verifier::ext_equal]
pub struct ConfigView {
    /// Daemon settings.
    pub daemon: DaemonView,
    /// Groups by name.
    pub groups: Map<Seq<char>, GroupView>,
    /// Group sets by name.
    pub sets: Map<Seq<char>, SetView>,
    /// Files that were read, in order.
    pub files: Seq<Seq<char>>,
}

impl View for Config {
    type V = ConfigView;

    open spec fn view(&self) -> ConfigView {
        ConfigView {
            daemon: self.daemon@,
            groups: self.groups@,
            sets: self.sets@,
            files: texts(self.files@),
        }
    }
}

impl ConfigView {
    /// A configuration without files.
    pub open spec fn empty() -> ConfigView {
        ConfigView {
            daemon: DaemonView::defaults(),
            groups: Map::empty(),
            sets: Map::empty(),
            files: Seq::empty(),
        }
    }
}

impl Default for Config {
    fn default() -> (r: Self)
        ensures
            r@ == ConfigView::empty(),
    {
        let r = Config {
            daemon: DaemonConfig::default(),
            groups: Table::new(),
            sets: Table::new(),
            files: Vec::new(),
        };
        assert(r@.files =~= Seq::<Seq<char>>::empty());
        r
    }
}

// Issues.

/// Severity of a configuration issue.
#[derive(Debug, Clone, Copy, PartialEq, Eq, PartialOrd, Ord, Structural)]
pub enum Severity {
    /// Does not prevent the configuration from being used.
    Warning,
    /// Prevents the configuration from being used.
    Error,
}

/// A single problem found while loading configuration.
#[derive(Debug, PartialEq, Eq)]
pub struct Issue {
    /// How serious the issue is.
    pub severity: Severity,
    /// File the issue relates to, if any.
    pub file: Option<String>,
    /// Group the issue relates to, if any.
    pub group: Option<String>,
    /// Human-readable description.
    pub message: String,
}

/// What an issue stands for.
#[verifier::ext_equal]
pub struct IssueView {
    /// How serious the issue is.
    pub severity: Severity,
    /// File the issue relates to, if any.
    pub file: Option<Seq<char>>,
    /// Group the issue relates to, if any.
    pub group: Option<Seq<char>>,
    /// Description.
    pub message: Seq<char>,
}

impl View for Issue {
    type V = IssueView;

    open spec fn view(&self) -> IssueView {
        IssueView {
            severity: self.severity,
            file: optional_text(self.file),
            group: optional_text(self.group),
            message: self.message@,
        }
    }
}

impl IssueView {
    /// The issue as one line of text.
    pub open spec fn text(self) -> Seq<char> {
        (match self.file {
            Some(file) => file + ": "@,
            None => Seq::empty(),
        }) + (match self.group {
            Some(group) => "group '"@ + group + "': "@,
            None => Seq::empty(),
        }) + self.message
    }
}

/// An error about a file, and maybe a group of it.
pub open spec fn error(file: Seq<char>, group: Option<Seq<char>>, message: Seq<char>) -> IssueView {
    IssueView { severity: Severity::Error, file: Some(file), group, message }
}

impl Issue {
    /// The issue as one line of text.
    pub fn text(&self) -> (r: String)
        ensures
            r@ == self@.text(),
    {
        let mut out = String::new();
        if let Some(file) = &self.file {
            out.append(file.as_str());
            out.append(": ");
        }
        if let Some(group) = &self.group {
            out.append("group '");
            out.append(group.as_str());
            out.append("': ");
        }
        out.append(self.message.as_str());
        assert(out@ =~= self@.text());
        out
    }
}

/// The views of a list of issues.
pub open spec fn issue_views(issues: Seq<Issue>) -> Seq<IssueView> {
    issues.map_values(|i: Issue| i@)
}

/// The issues that are errors, in order.
pub open spec fn errors_of(issues: Seq<IssueView>) -> Seq<IssueView>
    decreases issues.len(),
{
    if issues.len() == 0 {
        Seq::empty()
    } else {
        let front = errors_of(issues.drop_last());
        if issues.last().severity == Severity::Error {
            front.push(issues.last())
        } else {
            front
        }
    }
}

/// Whether some issue is an error.
pub open spec fn has_error(issues: Seq<IssueView>) -> bool {
    exists|i: int| 0 <= i < issues.len() && (#[trigger] issues[i]).severity == Severity::Error
}

/// Configuration could not be loaded. Contains every issue found, including
/// warnings.
#[derive(Debug, PartialEq, Eq)]
pub struct LoadError {
    /// All issues found.
    pub issues: Vec<Issue>,
}

impl LoadError {
    /// Issues with [`Severity::Error`].
    pub fn errors(&self) -> (r: Vec<&Issue>)
        ensures
            r@.map_values(|i: &Issue| i@) == errors_of(issue_views(self.issues@)),
    {
        let mut out: Vec<&Issue> = Vec::new();
        let ghost views = issue_views(self.issues@);
        let mut i: usize = 0;
        assert(out@.map_values(|i: &Issue| i@) =~= Seq::<IssueView>::empty());
        while i < self.issues.len()
            invariant
                i <= self.issues@.len(),
                views == issue_views(self.issues@),
                out@.map_values(|i: &Issue| i@) == errors_of(views.take(i as int)),
            decreases self.issues@.len() - i,
        {
            let issue = &self.issues[i];
            let ghost before = out@.map_values(|i: &Issue| i@);
            proof {
                assert(views.take(i + 1).drop_last() =~= views.take(i as int));
                assert(views.take(i + 1).last() == issue@);
            }
            if issue.severity == Severity::Error {
                out.push(issue);
                assert(out@.map_values(|i: &Issue| i@) =~= before.push(issue@));
            }
            i += 1;
        }
        assert(views.take(views.len() as int) =~= views);
        out
    }

    /// Describes the failure.
    pub fn message(&self) -> (r: String)
        ensures
            r@ == "invalid configuration ("@ + decimal(
                errors_of(issue_views(self.issues@)).len(),
            ) + " error(s))"@,
    {
        let mut out = String::new();
        let errors = self.errors();
        out.append("invalid configuration (");
        push_decimal(&mut out, errors.len() as u64);
        out.append(" error(s))");
        proof {
            assert(errors@.map_values(|i: &Issue| i@).len() == errors@.len());
        }
        out
    }
}

/// A successfully loaded configuration and any warnings.
#[derive(Debug, PartialEq, Eq)]
pub struct Loaded {
    /// The validated configuration.
    pub config: Config,
    /// Non-fatal issues.
    pub warnings: Vec<Issue>,
}

/// A copy of optional text.
fn own(s: Option<&str>) -> (r: Option<String>)
    ensures
        optional_text(r) == (match s {
            Some(s) => Some(s@),
            None => None,
        }),
{
    match s {
        Some(s) => Some(s.to_owned()),
        None => None,
    }
}

fn push_issue(
    issues: &mut Vec<Issue>,
    severity: Severity,
    file: Option<&str>,
    group: Option<&str>,
    message: String,
)
    ensures
        issue_views(final(issues)@) == issue_views(old(issues)@).push(
            IssueView {
                severity,
                file: match file {
                    Some(s) => Some(s@),
                    None => None,
                },
                group: match group {
                    Some(s) => Some(s@),
                    None => None,
                },
                message: message@,
            },
        ),
{
    let ghost before = issue_views(issues@);
    let issue = Issue { severity, file: own(file), group: own(group), message };
    let ghost added = issue@;
    issues.push(issue);
    assert(issue_views(issues@) =~= before.push(added));
}

pub(crate) fn push_error(issues: &mut Vec<Issue>, file: &str, group: Option<&str>, message: String)
    ensures
        issue_views(final(issues)@) == issue_views(old(issues)@).push(
            error(
                file@,
                match group {
                    Some(s) => Some(s@),
                    None => None,
                },
                message@,
            ),
        ),
{
    push_issue(issues, Severity::Error, Some(file), group, message);
}

/// Whether some issue is an error.
pub fn has_errors(issues: &Vec<Issue>) -> (r: bool)
    ensures
        r == has_error(issue_views(issues@)),
{
    let ghost views = issue_views(issues@);
    let mut i: usize = 0;
    while i < issues.len()
        invariant
            i <= issues@.len(),
            views == issue_views(issues@),
            forall|j: int| 0 <= j < i ==> (#[trigger] views[j]).severity != Severity::Error,
        decreases issues@.len() - i,
    {
        assert(views[i as int] == issues@[i as int]@);
        if issues[i].severity == Severity::Error {
            return true;
        }
        i += 1;
    }
    false
}

/// Text made of two parts.
pub(crate) fn two(a: &str, b: &str) -> (r: String)
    ensures
        r@ == a@ + b@,
{
    let mut out = String::new();
    out.append(a);
    out.append(b);
    assert(out@ =~= a@ + b@);
    out
}

// The file format.

/// The daemon settings as written.
#[derive(Debug, PartialEq, Eq)]
pub struct RawDaemon {
    /// `user`.
    pub user: Option<String>,
    /// `state_dir`.
    pub state_dir: Option<String>,
    /// `resync_interval_secs`.
    pub resync_interval_secs: Option<u64>,
}

/// What daemon settings say as written.
#[verifier::ext_equal]
pub struct RawDaemonView {
    /// `user`.
    pub user: Option<Seq<char>>,
    /// `state_dir`.
    pub state_dir: Option<Seq<char>>,
    /// `resync_interval_secs`.
    pub resync_interval_secs: Option<u64>,
}

impl View for RawDaemon {
    type V = RawDaemonView;

    open spec fn view(&self) -> RawDaemonView {
        RawDaemonView {
            user: optional_text(self.user),
            state_dir: optional_text(self.state_dir),
            resync_interval_secs: self.resync_interval_secs,
        }
    }
}

/// A group definition as written.
#[derive(Debug, PartialEq, Eq)]
pub struct RawGroup {
    /// `source_root`.
    pub source_root: String,
    /// `source`.
    pub source: String,
    /// `target_root`.
    pub target_root: String,
    /// `target`.
    pub target: String,
    /// `membership`.
    pub membership: String,
    /// `read_only`.
    pub read_only: Option<bool>,
    /// `noexec`.
    pub noexec: Option<bool>,
    /// `nosymfollow`.
    pub nosymfollow: Option<bool>,
}

/// What a group definition says as written.
#[verifier::ext_equal]
pub struct RawGroupView {
    /// `source_root`.
    pub source_root: Seq<char>,
    /// `source`.
    pub source: Seq<char>,
    /// `target_root`.
    pub target_root: Seq<char>,
    /// `target`.
    pub target: Seq<char>,
    /// `membership`.
    pub membership: Seq<char>,
    /// `read_only`.
    pub read_only: Option<bool>,
    /// `noexec`.
    pub noexec: Option<bool>,
    /// `nosymfollow`.
    pub nosymfollow: Option<bool>,
}

impl View for RawGroup {
    type V = RawGroupView;

    open spec fn view(&self) -> RawGroupView {
        RawGroupView {
            source_root: self.source_root@,
            source: self.source@,
            target_root: self.target_root@,
            target: self.target@,
            membership: self.membership@,
            read_only: self.read_only,
            noexec: self.noexec,
            nosymfollow: self.nosymfollow,
        }
    }
}

/// A configuration file as written.
#[derive(Debug, PartialEq, Eq)]
pub struct RawFile {
    /// `[daemon]`.
    pub daemon: Option<RawDaemon>,
    /// `[groups.<name>]`.
    pub groups: Table<String, RawGroup>,
    /// `[group_sets.<name>]`.
    pub sets: Table<String, RawSet>,
}

/// What a configuration file says as written.
#[verifier::ext_equal]
pub struct RawFileView {
    /// `[daemon]`.
    pub daemon: Option<RawDaemonView>,
    /// `[groups.<name>]`.
    pub groups: Map<Seq<char>, RawGroupView>,
    /// `[group_sets.<name>]`.
    pub sets: Map<Seq<char>, RawSetView>,
}

impl View for RawFile {
    type V = RawFileView;

    open spec fn view(&self) -> RawFileView {
        RawFileView {
            daemon: match self.daemon {
                Some(d) => Some(d@),
                None => None,
            },
            groups: self.groups@,
            sets: self.sets@,
        }
    }
}

/// A file that was parsed.
#[derive(Debug, PartialEq, Eq)]
pub struct ParsedFile {
    /// Where it was read from.
    pub path: String,
    /// What it says.
    pub raw: RawFile,
    /// Whether it is the main file.
    pub main: bool,
}

/// What a parsed file stands for.
#[verifier::ext_equal]
pub struct ParsedView {
    /// Where it was read from.
    pub path: Seq<char>,
    /// What it says.
    pub raw: RawFileView,
    /// Whether it is the main file.
    pub main: bool,
}

impl View for ParsedFile {
    type V = ParsedView;

    open spec fn view(&self) -> ParsedView {
        ParsedView { path: self.path@, raw: self.raw@, main: self.main }
    }
}

// Daemon settings.

/// A character of a user name.
pub open spec fn user_char(c: char) -> bool {
    ||| '0' <= c <= '9'
    ||| 'A' <= c <= 'Z'
    ||| 'a' <= c <= 'z'
    ||| c == '_'
    ||| c == '.'
    ||| c == '-'
}

/// A user name without its trailing `$`.
pub open spec fn user_body(user: Seq<char>) -> Seq<char> {
    if user.len() > 0 && user.last() == '$' {
        user.drop_last()
    } else {
        user
    }
}

/// A conventional POSIX-style user name: 1 to 32 bytes of `[A-Za-z0-9_.-]`,
/// not starting with `-`, optionally ending in `$`.
pub open spec fn valid_user_name(user: Seq<char>) -> bool {
    let body = user_body(user);
    &&& body.len() > 0
    &&& byte_len(user) <= 32
    &&& body[0] != '-'
    &&& forall|i: int| 0 <= i < body.len() ==> user_char(#[trigger] body[i])
}

/// Accepts conventional POSIX-style user names: 1 to 32 bytes of
/// `[A-Za-z0-9_.-]`, not starting with `-`, optionally ending in `$`.
pub fn is_valid_user_name(user: &str) -> (r: bool)
    ensures
        r == valid_user_name(user@),
{
    let v = chars_of(user);
    let ghost body = user_body(user@);
    let n: usize = if v.len() > 0 && v[v.len() - 1] == '$' { v.len() - 1 } else { v.len() };
    assert(body =~= v@.take(n as int));
    if n == 0 || user.as_bytes().len() > 32 {
        return false;
    }
    assert(body[0] == v@[0]);
    if v[0] == '-' {
        return false;
    }
    let mut i: usize = 0;
    while i < n
        invariant
            i <= n <= v@.len(),
            body == v@.take(n as int),
            body == user_body(user@),
            forall|j: int| 0 <= j < i ==> user_char(#[trigger] body[j]),
        decreases n - i,
    {
        let c = v[i];
        assert(body[i as int] == c);
        if !(('0' <= c && c <= '9') || ('A' <= c && c <= 'Z') || ('a' <= c && c <= 'z') || c == '_'
            || c == '.' || c == '-') {
            return false;
        }
        i += 1;
    }
    true
}

/// Text with everything unprintable escaped: what `str::escape_debug` gives.
pub uninterp spec fn debug_escaped(s: Seq<char>) -> Seq<char>;

/// `str::escape_debug`: the text with quotes, backslashes and everything
/// unprintable escaped.
#[verifier::external_body]
pub(crate) fn escape_debug(s: &str) -> (r: String)
    ensures
        r@ == debug_escaped(s@),
{
    s.escape_debug().to_string()
}

/// What is wrong with the daemon settings of a file.
pub open spec fn daemon_issues(raw: RawDaemonView, path: Seq<char>) -> Seq<IssueView> {
    let user = match raw.user {
        Some(user) => if valid_user_name(user) {
            Seq::empty()
        } else {
            seq![
                error(
                    path,
                    None,
                    "daemon.user: invalid user name '"@ + debug_escaped(user) + "'"@,
                ),
            ]
        },
        None => Seq::empty(),
    };
    let dir = match raw.state_dir {
        Some(dir) => match check_path(dir) {
            Ok(_) => Seq::empty(),
            Err(e) => seq![error(path, None, "daemon.state_dir: "@ + e.text())],
        },
        None => Seq::empty(),
    };
    let resync = match raw.resync_interval_secs {
        Some(secs) => if secs > MAX_RESYNC_INTERVAL_SECS {
            seq![
                error(
                    path,
                    None,
                    "daemon.resync_interval_secs: "@ + decimal(secs as nat)
                        + " exceeds the maximum of "@ + decimal(MAX_RESYNC_INTERVAL_SECS as nat),
                ),
            ]
        } else {
            Seq::empty()
        },
        None => Seq::empty(),
    };
    user + dir + resync
}

/// The daemon settings of a file; what is not set, or is wrong, has its
/// default.
pub open spec fn daemon_settings(raw: RawDaemonView) -> DaemonView {
    let defaults = DaemonView::defaults();
    DaemonView {
        user: match raw.user {
            Some(user) => if valid_user_name(user) {
                Some(user)
            } else {
                defaults.user
            },
            None => defaults.user,
        },
        state_dir: match raw.state_dir {
            Some(dir) => match check_path(dir) {
                Ok(p) => p,
                Err(_) => defaults.state_dir,
            },
            None => defaults.state_dir,
        },
        resync_interval: match raw.resync_interval_secs {
            Some(secs) => if secs > MAX_RESYNC_INTERVAL_SECS {
                defaults.resync_interval
            } else if secs == 0 {
                None
            } else {
                Some(secs)
            },
            None => defaults.resync_interval,
        },
    }
}

fn validate_daemon(raw: &RawDaemon, path: &str, issues: &mut Vec<Issue>) -> (r: DaemonConfig)
    ensures
        r@ == daemon_settings(raw@),
        issue_views(final(issues)@) == issue_views(old(issues)@) + daemon_issues(raw@, path@),
{
    let ghost start = issue_views(issues@);
    let mut daemon = DaemonConfig::default();
    if let Some(user) = &raw.user {
        if is_valid_user_name(user.as_str()) {
            daemon.user = Some(user.clone());
        } else {
            let mut message = two("daemon.user: invalid user name '", escape_debug(user.as_str()).as_str());
            message.append("'");
            push_error(issues, path, None, message);
        }
    }
    if let Some(dir) = &raw.state_dir {
        match AbsPath::new(dir.as_str()) {
            Ok(p) => {
                daemon.state_dir = p;
            },
            Err(e) => {
                push_error(issues, path, None, two("daemon.state_dir: ", e.message().as_str()));
            },
        }
    }
    if let Some(secs) = raw.resync_interval_secs {
        if secs > MAX_RESYNC_INTERVAL_SECS {
            let mut message = String::new();
            message.append("daemon.resync_interval_secs: ");
            push_decimal(&mut message, secs);
            message.append(" exceeds the maximum of ");
            push_decimal(&mut message, MAX_RESYNC_INTERVAL_SECS);
            push_error(issues, path, None, message);
        } else if secs == 0 {
            daemon.resync_interval = None;
        } else {
            daemon.resync_interval = Some(secs);
        }
    }
    assert(issue_views(issues@) =~= start + daemon_issues(raw@, path@));
    daemon
}

// Groups.

/// What is wrong with one absolute path of a group.
pub open spec fn path_field_issues(
    path: Seq<char>,
    group: Seq<char>,
    field: Seq<char>,
    value: Seq<char>,
) -> Seq<IssueView> {
    match check_path(value) {
        Ok(_) => Seq::empty(),
        Err(e) => seq![error(path, Some(group), field + ": "@ + e.text())],
    }
}

/// What is wrong with one template of a group.
pub open spec fn template_field_issues(
    path: Seq<char>,
    group: Seq<char>,
    field: Seq<char>,
    value: Seq<char>,
) -> Seq<IssueView> {
    match parse_template(value, false) {
        Ok(_) => Seq::empty(),
        Err(e) => seq![error(path, Some(group), field + ": "@ + e.text())],
    }
}

/// What is wrong with a group definition, field by field.
pub open spec fn group_issues(name: Seq<char>, raw: RawGroupView, path: Seq<char>) -> Seq<
    IssueView,
> {
    path_field_issues(path, name, "source_root"@, raw.source_root) + path_field_issues(
        path,
        name,
        "target_root"@,
        raw.target_root,
    ) + path_field_issues(path, name, "membership"@, raw.membership) + template_field_issues(
        path,
        name,
        "source"@,
        raw.source,
    ) + template_field_issues(path, name, "target"@, raw.target)
}

/// A setting, or its default.
pub open spec fn setting(value: Option<bool>, default: bool) -> bool {
    match value {
        Some(v) => v,
        None => default,
    }
}

/// The group that a definition gives, if every field of it is valid.
pub open spec fn group_of(name: Seq<char>, raw: RawGroupView, path: Seq<char>) -> Option<
    GroupView,
> {
    if check_path(raw.source_root) is Ok && check_path(raw.target_root) is Ok && check_path(
        raw.membership,
    ) is Ok && parse_template(raw.source, false) is Ok && parse_template(
        raw.target,
        false,
    ) is Ok {
        Some(
            GroupView {
                name,
                source_root: check_path(raw.source_root)->Ok_0,
                source: parse_template(raw.source, false)->Ok_0,
                target_root: check_path(raw.target_root)->Ok_0,
                target: parse_template(raw.target, false)->Ok_0,
                membership: check_path(raw.membership)->Ok_0,
                attrs: MountAttrs {
                    read_only: setting(raw.read_only, true),
                    noexec: setting(raw.noexec, true),
                    nosymfollow: setting(raw.nosymfollow, false),
                },
                origin: path,
            },
        )
    } else {
        None
    }
}

pub(crate) fn field_message(field: &str, error: &str) -> (r: String)
    ensures
        r@ == field@ + ": "@ + error@,
{
    let mut out = String::new();
    out.append(field);
    out.append(": ");
    out.append(error);
    assert(out@ =~= field@ + ": "@ + error@);
    out
}

fn validate_path(
    value: &str,
    field: &str,
    name: &Name,
    path: &str,
    issues: &mut Vec<Issue>,
) -> (r: Option<AbsPath>)
    ensures
        match r {
            Some(p) => check_path(value@) == Ok::<Seq<char>, AbsPathErrorView>(p@),
            None => check_path(value@) is Err,
        },
        issue_views(final(issues)@) == issue_views(old(issues)@) + path_field_issues(
            path@,
            name@,
            field@,
            value@,
        ),
{
    let ghost start = issue_views(issues@);
    match AbsPath::new(value) {
        Ok(p) => {
            assert(issue_views(issues@) =~= start + path_field_issues(path@, name@, field@, value@));
            Some(p)
        },
        Err(e) => {
            push_error(
                issues,
                path,
                Some(name.as_str()),
                field_message(field, e.message().as_str()),
            );
            assert(issue_views(issues@) =~= start + path_field_issues(path@, name@, field@, value@));
            None
        },
    }
}

fn validate_template(
    value: &str,
    field: &str,
    name: &Name,
    path: &str,
    issues: &mut Vec<Issue>,
) -> (r: Option<Template>)
    ensures
        match r {
            Some(t) => parse_template(value@, false) == Ok::<TemplateView, TemplateErrorView>(t@),
            None => parse_template(value@, false) is Err,
        },
        issue_views(final(issues)@) == issue_views(old(issues)@) + template_field_issues(
            path@,
            name@,
            field@,
            value@,
        ),
{
    let ghost start = issue_views(issues@);
    match Template::parse(value) {
        Ok(t) => {
            assert(issue_views(issues@) =~= start + template_field_issues(
                path@,
                name@,
                field@,
                value@,
            ));
            Some(t)
        },
        Err(e) => {
            push_error(
                issues,
                path,
                Some(name.as_str()),
                field_message(field, e.message().as_str()),
            );
            assert(issue_views(issues@) =~= start + template_field_issues(
                path@,
                name@,
                field@,
                value@,
            ));
            None
        },
    }
}

pub(crate) fn or_default(value: Option<bool>, default: bool) -> (r: bool)
    ensures
        r == setting(value, default),
{
    match value {
        Some(v) => v,
        None => default,
    }
}

fn validate_group(name: Name, raw: &RawGroup, path: &str, issues: &mut Vec<Issue>) -> (r: Option<
    GroupConfig,
>)
    ensures
        match r {
            Some(g) => group_of(name@, raw@, path@) == Some(g@),
            None => group_of(name@, raw@, path@) is None,
        },
        issue_views(final(issues)@) == issue_views(old(issues)@) + group_issues(
            name@,
            raw@,
            path@,
        ),
{
    let ghost start = issue_views(issues@);
    let source_root = validate_path(raw.source_root.as_str(), "source_root", &name, path, issues);
    let target_root = validate_path(raw.target_root.as_str(), "target_root", &name, path, issues);
    let membership = validate_path(raw.membership.as_str(), "membership", &name, path, issues);
    let source = validate_template(raw.source.as_str(), "source", &name, path, issues);
    let target = validate_template(raw.target.as_str(), "target", &name, path, issues);
    assert(issue_views(issues@) =~= start + group_issues(name@, raw@, path@));
    match (source_root, target_root, membership, source, target) {
        (
            Some(source_root),
            Some(target_root),
            Some(membership),
            Some(source),
            Some(target),
        ) => Some(
            GroupConfig {
                name,
                source_root,
                source,
                target_root,
                target,
                membership,
                attrs: MountAttrs {
                    read_only: or_default(raw.read_only, true),
                    noexec: or_default(raw.noexec, true),
                    nosymfollow: or_default(raw.nosymfollow, false),
                },
                origin: path.to_owned(),
            },
        ),
        _ => None,
    }
}

// Assembling.

/// What has been assembled so far.
#[verifier::ext_equal]
pub struct Assembly {
    /// The configuration.
    pub config: ConfigView,
    /// The file that first defined each group, valid or not.
    pub origins: Map<Seq<char>, Seq<char>>,
    /// Issues.
    pub issues: Seq<IssueView>,
}

/// Assembling one group definition. A name may be defined only once.
pub open spec fn assemble_group(
    a: Assembly,
    path: Seq<char>,
    name: Seq<char>,
    raw: RawGroupView,
) -> Assembly {
    match check_text(name) {
        Err(e) => Assembly {
            issues: a.issues.push(
                error(path, Some(name), "invalid group name: "@ + e.text()),
            ),
            ..a
        },
        Ok(_) => if a.origins.contains_key(name) {
            Assembly {
                issues: a.issues.push(
                    error(path, Some(name), "group is already defined in "@ + a.origins[name]),
                ),
                ..a
            }
        } else {
            Assembly {
                config: match group_of(name, raw, path) {
                    Some(g) => ConfigView { groups: a.config.groups.insert(name, g), ..a.config },
                    None => a.config,
                },
                origins: a.origins.insert(name, path),
                issues: a.issues + group_issues(name, raw, path),
            }
        },
    }
}

/// Assembling the groups of a file among `names`, in order.
pub open spec fn assemble_groups(
    a: Assembly,
    path: Seq<char>,
    groups: Map<Seq<char>, RawGroupView>,
    names: Seq<Seq<char>>,
) -> Assembly
    decreases names.len(),
{
    if names.len() == 0 {
        a
    } else {
        assemble_group(
            assemble_groups(a, path, groups, names.drop_last()),
            path,
            names.last(),
            groups[names.last()],
        )
    }
}

/// Assembling the daemon settings of a file. Only the main file may have any.
pub open spec fn assemble_daemon(a: Assembly, file: ParsedView) -> Assembly {
    let noted = ConfigView { files: a.config.files.push(file.path), ..a.config };
    match file.raw.daemon {
        None => Assembly { config: noted, ..a },
        Some(daemon) => if file.main {
            Assembly {
                config: ConfigView { daemon: daemon_settings(daemon), ..noted },
                issues: a.issues + daemon_issues(daemon, file.path),
                ..a
            }
        } else {
            Assembly {
                config: noted,
                issues: a.issues.push(
                    error(
                        file.path,
                        None,
                        "[daemon] settings are only allowed in the main configuration file"@,
                    ),
                ),
                ..a
            }
        },
    }
}

/// Assembling the files, in order.
pub open spec fn assemble_files(files: Seq<ParsedView>, issues: Seq<IssueView>) -> Assembly
    decreases files.len(),
{
    if files.len() == 0 {
        Assembly { config: ConfigView::empty(), origins: Map::empty(), issues }
    } else {
        let file = files.last();
        let a = assemble_daemon(assemble_files(files.drop_last(), issues), file);
        assemble_groups(
            a,
            file.path,
            file.raw.groups,
            in_order::<String>(file.raw.groups.dom()),
        )
    }
}

/// Whether a group's membership directory lies at or beneath a target root.
pub open spec fn membership_beneath(group: GroupView, other: GroupView) -> bool {
    components(other.target_root).is_prefix_of(components(group.membership))
}

/// The issue of a membership directory at or beneath a target root.
pub open spec fn beneath_issue(group: GroupView, other: GroupView) -> IssueView {
    error(
        group.origin,
        Some(group.name),
        "membership directory "@ + group.membership + " must not be at or beneath target_root "@
            + other.target_root + (if group.name == other.name {
            Seq::empty()
        } else {
            " of group '"@ + other.name + "'"@
        }),
    )
}

/// The issues of one group against the groups among `others`, in order.
pub open spec fn cross_one(
    groups: Map<Seq<char>, GroupView>,
    name: Seq<char>,
    others: Seq<Seq<char>>,
) -> Seq<IssueView>
    decreases others.len(),
{
    if others.len() == 0 {
        Seq::empty()
    } else {
        let front = cross_one(groups, name, others.drop_last());
        if membership_beneath(groups[name], groups[others.last()]) {
            front.push(beneath_issue(groups[name], groups[others.last()]))
        } else {
            front
        }
    }
}

/// The issues of the groups among `names` against all groups, in order.
pub open spec fn cross_all(
    groups: Map<Seq<char>, GroupView>,
    names: Seq<Seq<char>>,
    all: Seq<Seq<char>>,
) -> Seq<IssueView>
    decreases names.len(),
{
    if names.len() == 0 {
        Seq::empty()
    } else {
        cross_all(groups, names.drop_last(), all) + cross_one(groups, names.last(), all)
    }
}

/// The issues between groups: no membership directory lies at or beneath any
/// group's target root.
pub open spec fn cross_issues(groups: Map<Seq<char>, GroupView>) -> Seq<IssueView> {
    cross_all(groups, in_order::<Name>(groups.dom()), in_order::<Name>(groups.dom()))
}

/// The views of a list of parsed files.
pub open spec fn parsed_views(files: Seq<ParsedFile>) -> Seq<ParsedView> {
    files.map_values(|f: ParsedFile| f@)
}

spec fn assembly_view(config: Config, origins: Table<Name, String>, issues: Seq<Issue>) -> Assembly {
    Assembly { config: config@, origins: origins@, issues: issue_views(issues) }
}

fn assemble_one_group(
    config: &mut Config,
    origins: &mut Table<Name, String>,
    issues: &mut Vec<Issue>,
    path: &str,
    group_name: &str,
    raw: &RawGroup,
)
    ensures
        assembly_view(*final(config), *final(origins), final(issues)@) == assemble_group(
            assembly_view(*old(config), *old(origins), old(issues)@),
            path@,
            group_name@,
            raw@,
        ),
{
    let ghost start = assembly_view(*config, *origins, issues@);
    let name = match Name::new(group_name) {
        Ok(name) => name,
        Err(e) => {
            push_error(
                issues,
                path,
                Some(group_name),
                two("invalid group name: ", e.message().as_str()),
            );
            return;
        },
    };
    if let Some(first) = origins.get(&name) {
        push_error(
            issues,
            path,
            Some(group_name),
            two("group is already defined in ", first.as_str()),
        );
        return;
    }
    origins.insert(name.clone(), path.to_owned());
    let key = name.clone();
    if let Some(group) = validate_group(name, raw, path, issues) {
        config.groups.insert(key, group);
    }
}

/// What the files say, and every issue found so far and in them.
pub open spec fn validated(files: Seq<ParsedView>, issues: Seq<IssueView>) -> (
    ConfigView,
    Seq<IssueView>,
) {
    let a = assemble_files(files, issues);
    let s = assemble_set_files(files);
    (
        ConfigView { sets: s.sets, ..a.config },
        a.issues + s.issues + cross_issues(a.config.groups) + set_cross_issues(
            a.config.groups,
            s.sets,
        ),
    )
}

/// Validates what the files say, adding what is wrong to the issues.
pub fn assemble(files: &Vec<ParsedFile>, issues: &mut Vec<Issue>) -> (r: Config)
    ensures
        (r@, issue_views(final(issues)@)) == validated(
            parsed_views(files@),
            issue_views(old(issues)@),
        ),
{
    let ghost first = issue_views(issues@);
    let ghost views = parsed_views(files@);
    let mut config = Config::default();
    let mut origins: Table<Name, String> = Table::new();
    let mut i: usize = 0;
    while i < files.len()
        invariant
            i <= files@.len(),
            views == parsed_views(files@),
            assembly_view(config, origins, issues@) == assemble_files(
                views.take(i as int),
                first,
            ),
        decreases files@.len() - i,
    {
        let file = &files[i];
        let path = file.path.as_str();
        let ghost start = assembly_view(config, origins, issues@);
        proof {
            assert(views.take(i + 1).drop_last() =~= views.take(i as int));
            assert(views.take(i + 1).last() == file@);
        }
        let ghost names_before = texts(config.files@);
        config.files.push(file.path.clone());
        assert(texts(config.files@) =~= names_before.push(path@));
        if let Some(daemon) = &file.raw.daemon {
            if file.main {
                config.daemon = validate_daemon(daemon, path, issues);
            } else {
                push_error(
                    issues,
                    path,
                    None,
                    "[daemon] settings are only allowed in the main configuration file".to_owned(),
                );
            }
        }
        let ghost middle = assembly_view(config, origins, issues@);
        assert(middle == assemble_daemon(start, file@));
        let groups = &file.raw.groups;
        let n: usize = groups.len();
        let ghost names = groups.keys();
        let mut j: usize = 0;
        while j < n
            invariant
                j <= n,
                n == names.len(),
                names == groups.keys(),
                path@ == file@.path,
                groups@ == file@.raw.groups,
                assembly_view(config, origins, issues@) == assemble_groups(
                    middle,
                    path@,
                    groups@,
                    names.take(j as int),
                ),
            decreases n - j,
        {
            let group_name = groups.key_at(j);
            let raw = groups.value_at(j);
            proof {
                assert(names.take(j + 1).drop_last() =~= names.take(j as int));
                assert(names.take(j + 1).last() == group_name@);
            }
            assemble_one_group(
                &mut config,
                &mut origins,
                issues,
                path,
                group_name.as_str(),
                raw,
            );
            j += 1;
        }
        assert(names.take(names.len() as int) =~= names);
        i += 1;
    }
    assert(views.take(views.len() as int) =~= views);
    config.sets = collect_sets(files, issues);
    check_cross_group(&config, issues);
    check_cross_set(&config, issues);
    config
}

fn check_cross_group(config: &Config, issues: &mut Vec<Issue>)
    ensures
        issue_views(final(issues)@) == issue_views(old(issues)@) + cross_issues(config@.groups),
{
    let ghost start = issue_views(issues@);
    let n: usize = config.groups.len();
    let ghost names = config.groups.keys();
    let ghost groups = config@.groups;
    let mut i: usize = 0;
    assert(issue_views(issues@) =~= start + cross_all(groups, names.take(0), names));
    while i < n
        invariant
            i <= n,
            n == names.len(),
            names == config.groups.keys(),
            groups == config.groups@,
            issue_views(issues@) == start + cross_all(groups, names.take(i as int), names),
        decreases n - i,
    {
        let group = config.groups.value_at(i);
        proof {
            assert(names.take(i + 1).drop_last() =~= names.take(i as int));
            assert(names.take(i + 1).last() == names[i as int]);
        }
        let ghost middle = issue_views(issues@);
        let mut j: usize = 0;
        assert(issue_views(issues@) =~= middle + cross_one(groups, names[i as int], names.take(0)));
        while j < n
            invariant
                j <= n,
                i < n,
                n == names.len(),
                names == config.groups.keys(),
                groups == config.groups@,
                group@ == groups[names[i as int]],
                issue_views(issues@) == middle + cross_one(
                    groups,
                    names[i as int],
                    names.take(j as int),
                ),
            decreases n - j,
        {
            let other = config.groups.value_at(j);
            let ghost before = issue_views(issues@);
            proof {
                assert(names.take(j + 1).drop_last() =~= names.take(j as int));
                assert(names.take(j + 1).last() == names[j as int]);
            }
            if group.membership.is_at_or_beneath(&other.target_root) {
                let mut message = String::new();
                message.append("membership directory ");
                message.append(group.membership.as_path());
                message.append(" must not be at or beneath target_root ");
                message.append(other.target_root.as_path());
                if !group.name.same(&other.name) {
                    message.append(" of group '");
                    message.append(other.name.as_str());
                    message.append("'");
                }
                assert(message@ =~= beneath_issue(group@, other@).message);
                push_error(issues, group.origin.as_str(), Some(group.name.as_str()), message);
                assert(issue_views(issues@) =~= before.push(beneath_issue(group@, other@)));
            }
            j += 1;
            assert(issue_views(issues@) =~= middle + cross_one(
                groups,
                names[i as int],
                names.take(j as int),
            ));
        }
        assert(names.take(names.len() as int) =~= names);
        i += 1;
        assert(issue_views(issues@) =~= start + cross_all(groups, names.take(i as int), names));
    }
    assert(names.take(names.len() as int) =~= names);
}

/// The configuration with its warnings, unless some issue is an error.
pub fn settle(config: Config, issues: Vec<Issue>) -> (r: Result<Loaded, LoadError>)
    ensures
        match r {
            Ok(loaded) => !has_error(issue_views(issues@)) && loaded.config@ == config@
                && issue_views(loaded.warnings@) == issue_views(issues@),
            Err(e) => has_error(issue_views(issues@)) && issue_views(e.issues@) == issue_views(
                issues@,
            ),
        },
{
    if has_errors(&issues) {
        Err(LoadError { issues })
    } else {
        Ok(Loaded { config, warnings: issues })
    }
}

// Loading.

/// How ownership and mode violations on configuration files are treated.
#[derive(Debug, Clone, Copy, PartialEq, Eq, Structural)]
pub enum OwnershipPolicy {
    /// Violations are errors. Used by everything that mounts.
    Enforce,
    /// Violations are warnings. Used by read-only CLI commands.
    Warn,
}

/// Where to load configuration from and how strictly.
#[derive(Debug)]
pub struct LoadOptions {
    /// Main configuration file.
    pub main_file: String,
    /// Whether a missing main file is an error (true when given explicitly).
    pub main_file_required: bool,
    /// Drop-in fragment directory.
    pub config_dir: String,
    /// Whether a missing fragment directory is an error.
    pub config_dir_required: bool,
    /// Treatment of ownership and mode violations.
    pub ownership: OwnershipPolicy,
    /// The UID that must own configuration files and directories.
    pub trusted_uid: u32,
    /// Whether to check that configured directories exist.
    pub check_paths: bool,
}

/// What load options stand for.
#[verifier::ext_equal]
pub struct OptionsView {
    /// Main configuration file.
    pub main_file: Seq<char>,
    /// Whether a missing main file is an error.
    pub main_file_required: bool,
    /// Drop-in fragment directory.
    pub config_dir: Seq<char>,
    /// Whether a missing fragment directory is an error.
    pub config_dir_required: bool,
    /// Treatment of ownership and mode violations.
    pub ownership: OwnershipPolicy,
    /// The UID that must own configuration files and directories.
    pub trusted_uid: u32,
    /// Whether to check that configured directories exist.
    pub check_paths: bool,
}

impl View for LoadOptions {
    type V = OptionsView;

    open spec fn view(&self) -> OptionsView {
        OptionsView {
            main_file: self.main_file@,
            main_file_required: self.main_file_required,
            config_dir: self.config_dir@,
            config_dir_required: self.config_dir_required,
            ownership: self.ownership,
            trusted_uid: self.trusted_uid,
            check_paths: self.check_paths,
        }
    }
}

impl Clone for LoadOptions {
    fn clone(&self) -> (r: Self)
        ensures
            r@ == self@,
    {
        LoadOptions {
            main_file: self.main_file.clone(),
            main_file_required: self.main_file_required,
            config_dir: self.config_dir.clone(),
            config_dir_required: self.config_dir_required,
            ownership: self.ownership,
            trusted_uid: self.trusted_uid,
            check_paths: self.check_paths,
        }
    }
}

impl OptionsView {
    /// The options where nothing is given.
    pub open spec fn defaults() -> OptionsView {
        OptionsView {
            main_file: DEFAULT_CONFIG_FILE@,
            main_file_required: false,
            config_dir: DEFAULT_CONFIG_DIR@,
            config_dir_required: false,
            ownership: OwnershipPolicy::Enforce,
            trusted_uid: 0,
            check_paths: true,
        }
    }
}

impl Default for LoadOptions {
    fn default() -> (r: Self)
        ensures
            r@ == OptionsView::defaults(),
    {
        LoadOptions {
            main_file: DEFAULT_CONFIG_FILE.to_owned(),
            main_file_required: false,
            config_dir: DEFAULT_CONFIG_DIR.to_owned(),
            config_dir_required: false,
            ownership: OwnershipPolicy::Enforce,
            trusted_uid: 0,
            check_paths: true,
        }
    }
}

/// What came of reading a file.
#[derive(Debug, PartialEq, Eq)]
pub enum ReadOutcome {
    /// The content.
    Content(String),
    /// There is no such file.
    Missing,
    /// The file could not be read.
    Failed(String),
}

/// What an outcome of reading stands for.
pub enum ReadView {
    /// The content.
    Content(Seq<char>),
    /// There is no such file.
    Missing,
    /// The file could not be read.
    Failed(Seq<char>),
}

impl View for ReadOutcome {
    type V = ReadView;

    open spec fn view(&self) -> ReadView {
        match self {
            ReadOutcome::Content(s) => ReadView::Content(s@),
            ReadOutcome::Missing => ReadView::Missing,
            ReadOutcome::Failed(s) => ReadView::Failed(s@),
        }
    }
}

/// A fragment and what came of reading it.
#[derive(Debug, PartialEq, Eq)]
pub struct Fragment {
    /// Its path.
    pub path: String,
    /// What came of reading it.
    pub outcome: ReadOutcome,
}

/// What a fragment stands for.
pub struct FragmentView {
    /// Its path.
    pub path: Seq<char>,
    /// What came of reading it.
    pub outcome: ReadView,
}

impl View for Fragment {
    type V = FragmentView;

    open spec fn view(&self) -> FragmentView {
        FragmentView { path: self.path@, outcome: self.outcome@ }
    }
}

/// The views of a list of fragments.
pub open spec fn fragment_views(fragments: Seq<Fragment>) -> Seq<FragmentView> {
    fragments.map_values(|f: Fragment| f@)
}

/// What came of listing the fragment directory.
#[derive(Debug, PartialEq, Eq)]
pub enum ListOutcome {
    /// Its fragments, in order, each with what came of reading it.
    Fragments(Vec<Fragment>),
    /// There is no such directory.
    Missing,
    /// The directory could not be listed.
    Failed(String),
}

/// What an outcome of listing stands for.
pub enum ListView {
    /// Its fragments, in order.
    Fragments(Seq<FragmentView>),
    /// There is no such directory.
    Missing,
    /// The directory could not be listed.
    Failed(Seq<char>),
}

impl View for ListOutcome {
    type V = ListView;

    open spec fn view(&self) -> ListView {
        match self {
            ListOutcome::Fragments(v) => ListView::Fragments(fragment_views(v@)),
            ListOutcome::Missing => ListView::Missing,
            ListOutcome::Failed(s) => ListView::Failed(s@),
        }
    }
}

/// A file that was read.
#[derive(Debug, PartialEq, Eq)]
pub struct Source {
    /// Its path.
    pub path: String,
    /// Its content.
    pub content: String,
    /// Whether it is the main file.
    pub main: bool,
}

/// What a file that was read stands for.
#[verifier::ext_equal]
pub struct SourceView {
    /// Its path.
    pub path: Seq<char>,
    /// Its content.
    pub content: Seq<char>,
    /// Whether it is the main file.
    pub main: bool,
}

impl View for Source {
    type V = SourceView;

    open spec fn view(&self) -> SourceView {
        SourceView { path: self.path@, content: self.content@, main: self.main }
    }
}

/// The views of a list of files.
pub open spec fn source_views(sources: Seq<Source>) -> Seq<SourceView> {
    sources.map_values(|s: Source| s@)
}

/// Whether a directory entry is a fragment: not hidden, and named `*.toml`.
pub open spec fn is_fragment_name(name: Seq<u8>) -> bool {
    &&& name.len() >= 5
    &&& name[0] != 0x2e
    &&& name.subrange(name.len() - 5, name.len() as int) =~= seq![0x2eu8, 0x74, 0x6f, 0x6d, 0x6c]
}

/// Whether a directory entry is a fragment: not hidden, and named `*.toml`.
pub fn is_fragment(name: &[u8]) -> (r: bool)
    ensures
        r == is_fragment_name(name@),
{
    let n: usize = name.len();
    if n < 5 {
        return false;
    }
    let ghost tail = name@.subrange(n - 5, n as int);
    let r = name[0] != 0x2e && name[n - 5] == 0x2e && name[n - 4] == 0x74 && name[n - 3] == 0x6f
        && name[n - 2] == 0x6d && name[n - 1] == 0x6c;
    proof {
        assert(tail[0] == name@[n - 5] && tail[1] == name@[n - 4] && tail[2] == name@[n - 3]
            && tail[3] == name@[n - 2] && tail[4] == name@[n - 1]);
        if r {
            assert(tail =~= seq![0x2eu8, 0x74, 0x6f, 0x6d, 0x6c]);
        } else if name@[0] != 0x2e {
            let toml = seq![0x2eu8, 0x74, 0x6f, 0x6d, 0x6c];
            assert(tail[0] != toml[0] || tail[1] != toml[1] || tail[2] != toml[2] || tail[3]
                != toml[3] || tail[4] != toml[4]);
        }
    }
    r
}

/// The fragments among the first `n` names.
pub open spec fn fragments_among(names: Seq<Vec<u8>>, n: int) -> Set<Seq<u8>> {
    Set::new(|b: Seq<u8>| is_fragment_name(b) && exists|i: int|
        0 <= i < n && (#[trigger] names[i])@ == b)
}

/// The fragments of a directory, in byte order of their names.
pub fn fragment_names(names: Vec<Vec<u8>>) -> (r: KeySet<Vec<u8>>)
    ensures
        r@ == fragments_among(names@, names@.len() as int),
{
    let mut out: KeySet<Vec<u8>> = KeySet::new();
    let mut i: usize = 0;
    assert(out@ =~= fragments_among(names@, 0));
    while i < names.len()
        invariant
            i <= names@.len(),
            out@ == fragments_among(names@, i as int),
        decreases names@.len() - i,
    {
        let ghost before = out@;
        let name = &names[i];
        if is_fragment(name.as_slice()) {
            let _ = out.insert(name.clone());
            assert(out@ == before.insert(name@));
        }
        i += 1;
        assert(out@ =~= fragments_among(names@, i as int)) by {
            assert forall|b: Seq<u8>| #[trigger] out@.contains(b) implies fragments_among(
                names@,
                i as int,
            ).contains(b) by {
                if b == name@ {
                    assert(names@[i - 1]@ == b);
                } else {
                    assert(before.contains(b));
                    let j = choose|j: int| 0 <= j < i - 1 && (#[trigger] names@[j])@ == b;
                    assert(names@[j]@ == b);
                }
            }
            assert forall|b: Seq<u8>| #[trigger]
                fragments_among(names@, i as int).contains(b) implies out@.contains(b) by {
                let j = choose|j: int| 0 <= j < i && (#[trigger] names@[j])@ == b;
                if j < i - 1 {
                    assert(before.contains(b));
                } else {
                    assert(b == name@);
                }
            }
        }
    }
    out
}

/// The files that were read, main file first, fragments in order.
pub open spec fn fragment_sources(fragments: Seq<FragmentView>) -> Seq<SourceView>
    decreases fragments.len(),
{
    if fragments.len() == 0 {
        Seq::empty()
    } else {
        let front = fragment_sources(fragments.drop_last());
        match fragments.last().outcome {
            ReadView::Content(content) => front.push(
                SourceView { path: fragments.last().path, content, main: false },
            ),
            _ => front,
        }
    }
}

/// What is wrong with the fragments: a fragment that vanished is passed over.
pub open spec fn fragment_issues(fragments: Seq<FragmentView>) -> Seq<IssueView>
    decreases fragments.len(),
{
    if fragments.len() == 0 {
        Seq::empty()
    } else {
        let front = fragment_issues(fragments.drop_last());
        match fragments.last().outcome {
            ReadView::Failed(e) => front.push(
                error(fragments.last().path, None, "cannot read: "@ + e),
            ),
            _ => front,
        }
    }
}

/// The files that were read: the main file, then the fragments.
pub open spec fn gathered(options: OptionsView, main: ReadView, dir: ListView) -> Seq<SourceView> {
    (match main {
        ReadView::Content(content) => seq![
            SourceView { path: options.main_file, content, main: true },
        ],
        _ => Seq::empty(),
    }) + (match dir {
        ListView::Fragments(f) => fragment_sources(f),
        _ => Seq::empty(),
    })
}

/// What is wrong with the files: one that could not be read, or that is
/// required and missing.
pub open spec fn gather_issues(options: OptionsView, main: ReadView, dir: ListView) -> Seq<
    IssueView,
> {
    (match main {
        ReadView::Missing if options.main_file_required => seq![
            error(options.main_file, None, "file does not exist"@),
        ],
        ReadView::Failed(e) => seq![error(options.main_file, None, "cannot read: "@ + e)],
        _ => Seq::empty(),
    }) + (match dir {
        ListView::Fragments(f) => fragment_issues(f),
        ListView::Missing if options.config_dir_required => seq![
            error(options.config_dir, None, "directory does not exist"@),
        ],
        ListView::Missing => Seq::empty(),
        ListView::Failed(e) => seq![
            error(options.config_dir, None, "cannot list directory: "@ + e),
        ],
    })
}

fn gather_fragments(
    fragments: Vec<Fragment>,
    sources: &mut Vec<Source>,
    issues: &mut Vec<Issue>,
)
    ensures
        source_views(final(sources)@) == source_views(old(sources)@) + fragment_sources(
            fragment_views(fragments@),
        ),
        issue_views(final(issues)@) == issue_views(old(issues)@) + fragment_issues(
            fragment_views(fragments@),
        ),
{
    let ghost views = fragment_views(fragments@);
    let ghost s0 = source_views(sources@);
    let ghost i0 = issue_views(issues@);
    let mut k: usize = 0;
    assert(source_views(sources@) =~= s0 + fragment_sources(views.take(0)));
    assert(issue_views(issues@) =~= i0 + fragment_issues(views.take(0)));
    while k < fragments.len()
        invariant
            k <= fragments@.len(),
            views == fragment_views(fragments@),
            source_views(sources@) == s0 + fragment_sources(views.take(k as int)),
            issue_views(issues@) == i0 + fragment_issues(views.take(k as int)),
        decreases fragments@.len() - k,
    {
        let fragment = &fragments[k];
        let ghost s1 = source_views(sources@);
        let ghost i1 = issue_views(issues@);
        proof {
            assert(views.take(k + 1).drop_last() =~= views.take(k as int));
            assert(views.take(k + 1).last() == fragment@);
        }
        match &fragment.outcome {
            ReadOutcome::Content(content) => {
                let source = Source {
                    path: fragment.path.clone(),
                    content: content.clone(),
                    main: false,
                };
                let ghost added = source@;
                sources.push(source);
                assert(source_views(sources@) =~= s1.push(added));
            },
            ReadOutcome::Missing => {},
            ReadOutcome::Failed(e) => {
                push_error(issues, fragment.path.as_str(), None, two("cannot read: ", e.as_str()));
            },
        }
        k += 1;
        assert(source_views(sources@) =~= s0 + fragment_sources(views.take(k as int)));
        assert(issue_views(issues@) =~= i0 + fragment_issues(views.take(k as int)));
    }
    assert(views.take(views.len() as int) =~= views);
}

/// The files to use, from what came of reading the main file and listing the
/// fragment directory. What is wrong is added to the issues.
pub fn gather(
    options: &LoadOptions,
    main: ReadOutcome,
    dir: ListOutcome,
    issues: &mut Vec<Issue>,
) -> (r: Vec<Source>)
    ensures
        source_views(r@) == gathered(options@, main@, dir@),
        issue_views(final(issues)@) == issue_views(old(issues)@) + gather_issues(
            options@,
            main@,
            dir@,
        ),
{
    let ghost i0 = issue_views(issues@);
    let mut sources: Vec<Source> = Vec::new();
    assert(source_views(sources@) =~= Seq::<SourceView>::empty());
    let main_file = options.main_file.as_str();
    match main {
        ReadOutcome::Content(content) => {
            let source = Source { path: main_file.to_owned(), content, main: true };
            let ghost added = source@;
            sources.push(source);
            assert(source_views(sources@) =~= seq![added]);
        },
        ReadOutcome::Missing => {
            if options.main_file_required {
                push_error(issues, main_file, None, "file does not exist".to_owned());
            }
        },
        ReadOutcome::Failed(e) => {
            push_error(issues, main_file, None, two("cannot read: ", e.as_str()));
        },
    }
    let ghost s1 = source_views(sources@);
    let ghost i1 = issue_views(issues@);
    let config_dir = options.config_dir.as_str();
    match dir {
        ListOutcome::Fragments(fragments) => {
            gather_fragments(fragments, &mut sources, issues);
        },
        ListOutcome::Missing => {
            if options.config_dir_required {
                push_error(issues, config_dir, None, "directory does not exist".to_owned());
            }
        },
        ListOutcome::Failed(e) => {
            push_error(issues, config_dir, None, two("cannot list directory: ", e.as_str()));
        },
    }
    assert(source_views(sources@) =~= gathered(options@, main@, dir@));
    assert(issue_views(issues@) =~= i0 + gather_issues(options@, main@, dir@));
    sources
}

/// The paths whose ownership is judged: every file, and the fragment directory
/// if a fragment was read.
pub open spec fn owned_paths(sources: Seq<SourceView>, config_dir: Seq<char>) -> Seq<Seq<char>> {
    let files = sources.map_values(|s: SourceView| s.path);
    if exists|i: int| 0 <= i < sources.len() && !(#[trigger] sources[i]).main {
        files.push(config_dir)
    } else {
        files
    }
}

/// The paths whose ownership is to be judged.
pub fn ownership_paths(sources: &Vec<Source>, config_dir: &str) -> (r: Vec<String>)
    ensures
        texts(r@) == owned_paths(source_views(sources@), config_dir@),
{
    let ghost views = source_views(sources@);
    let mut out: Vec<String> = Vec::new();
    let mut fragment: bool = false;
    let mut i: usize = 0;
    while i < sources.len()
        invariant
            i <= sources@.len(),
            views == source_views(sources@),
            texts(out@) =~= views.map_values(|s: SourceView| s.path).take(i as int),
            fragment == exists|j: int| 0 <= j < i && !(#[trigger] views[j]).main,
        decreases sources@.len() - i,
    {
        let ghost before = texts(out@);
        assert(views[i as int] == sources@[i as int]@);
        out.push(sources[i].path.clone());
        assert(texts(out@) =~= before.push(views[i as int].path));
        if !sources[i].main {
            fragment = true;
        }
        i += 1;
    }
    let ghost files = texts(out@);
    assert(files =~= views.map_values(|s: SourceView| s.path));
    if fragment {
        out.push(config_dir.to_owned());
        assert(texts(out@) =~= files.push(config_dir@));
    }
    out
}

/// What came of examining a file or directory.
#[derive(Debug, PartialEq, Eq)]
pub struct Examined {
    /// Its path, with symbolic links resolved.
    pub path: String,
    /// Its owner and mode, or why they are unknown.
    pub outcome: Result<(u32, u32), String>,
}

/// What an examination stands for.
pub struct ExaminedView {
    /// Its path.
    pub path: Seq<char>,
    /// Its owner and mode, or why they are unknown.
    pub outcome: Result<(u32, u32), Seq<char>>,
}

impl View for Examined {
    type V = ExaminedView;

    open spec fn view(&self) -> ExaminedView {
        ExaminedView {
            path: self.path@,
            outcome: match self.outcome {
                Ok(o) => Ok(o),
                Err(e) => Err(e@),
            },
        }
    }
}

/// The views of a list of examinations.
pub open spec fn examined_views(examined: Seq<Examined>) -> Seq<ExaminedView> {
    examined.map_values(|e: Examined| e@)
}

/// The severity of a violation.
pub open spec fn violation(policy: OwnershipPolicy) -> Severity {
    match policy {
        OwnershipPolicy::Enforce => Severity::Error,
        OwnershipPolicy::Warn => Severity::Warning,
    }
}

/// Permission bits in octal, four digits.
pub open spec fn octal(mode: u32) -> Seq<char> {
    let m = (mode & 0o7777) as nat;
    seq![digit(m / 512 % 8), digit(m / 64 % 8), digit(m / 8 % 8), digit(m % 8)]
}

/// What is wrong with who may write one file or directory.
pub open spec fn examined_messages(e: ExaminedView, trusted_uid: u32) -> Seq<Seq<char>> {
    match e.outcome {
        Err(why) => seq!["cannot stat "@ + e.path + ": "@ + why],
        Ok((uid, mode)) => (if uid != trusted_uid {
            seq![
                e.path + " is owned by uid "@ + decimal(uid as nat) + ", expected uid "@ + decimal(
                    trusted_uid as nat,
                ),
            ]
        } else {
            Seq::empty()
        }) + (if mode & 0o022 != 0 {
            seq![e.path + " is group- or world-writable (mode "@ + octal(mode) + ")"@]
        } else {
            Seq::empty()
        }),
    }
}

/// What is wrong with who may write the files and directories examined.
pub open spec fn all_messages(examined: Seq<ExaminedView>, trusted_uid: u32) -> Seq<Seq<char>>
    decreases examined.len(),
{
    if examined.len() == 0 {
        Seq::empty()
    } else {
        all_messages(examined.drop_last(), trusted_uid) + examined_messages(
            examined.last(),
            trusted_uid,
        )
    }
}

/// The issues about `path` that the messages make.
pub open spec fn issues_about(path: Seq<char>, severity: Severity, messages: Seq<Seq<char>>) -> Seq<
    IssueView,
> {
    messages.map_values(
        |m: Seq<char>| IssueView { severity, file: Some(path), group: None, message: m },
    )
}

/// The issues about who may write a configuration path: the file itself and
/// the directory that contains it, once symbolic links are resolved.
pub open spec fn ownership_of(
    path: Seq<char>,
    options: OptionsView,
    resolved: Result<Seq<ExaminedView>, Seq<char>>,
) -> Seq<IssueView> {
    issues_about(
        path,
        violation(options.ownership),
        match resolved {
            Err(why) => seq!["cannot resolve path: "@ + why],
            Ok(examined) => all_messages(examined, options.trusted_uid),
        },
    )
}

fn push_about(issues: &mut Vec<Issue>, path: &str, severity: Severity, message: String)
    ensures
        issue_views(final(issues)@) == issue_views(old(issues)@) + issues_about(
            path@,
            severity,
            seq![message@],
        ),
{
    let ghost i0 = issue_views(issues@);
    let ghost text = message@;
    push_issue(issues, severity, Some(path), None, message);
    assert(issue_views(issues@) =~= i0 + issues_about(path@, severity, seq![text]));
}

fn octal_text(mode: u32) -> (r: String)
    ensures
        r@ == octal(mode),
{
    let m: u32 = mode & 0o7777;
    assert(m < 4096) by (bit_vector)
        requires
            m == mode & 0o7777,
    ;
    let mut out = String::new();
    out.push(digit_char(m / 512 % 8));
    out.push(digit_char(m / 64 % 8));
    out.push(digit_char(m / 8 % 8));
    out.push(digit_char(m % 8));
    assert(out@ =~= octal(mode));
    out
}

fn digit_char(d: u32) -> (r: char)
    requires
        d < 8,
    ensures
        r == digit(d as nat),
{
    match d {
        0 => '0',
        1 => '1',
        2 => '2',
        3 => '3',
        4 => '4',
        5 => '5',
        6 => '6',
        _ => '7',
    }
}

fn examined_issues(
    path: &str,
    severity: Severity,
    trusted_uid: u32,
    e: &Examined,
    issues: &mut Vec<Issue>,
)
    ensures
        issue_views(final(issues)@) == issue_views(old(issues)@) + issues_about(
            path@,
            severity,
            examined_messages(e@, trusted_uid),
        ),
{
    let ghost i0 = issue_views(issues@);
    match &e.outcome {
        Err(why) => {
            let mut m = String::new();
            m.append("cannot stat ");
            m.append(e.path.as_str());
            m.append(": ");
            m.append(why.as_str());
            assert(m@ =~= "cannot stat "@ + e.path@ + ": "@ + why@);
            push_about(issues, path, severity, m);
        },
        Ok((uid, mode)) => {
            if *uid != trusted_uid {
                let mut m = String::new();
                m.append(e.path.as_str());
                m.append(" is owned by uid ");
                push_decimal(&mut m, *uid as u64);
                m.append(", expected uid ");
                push_decimal(&mut m, trusted_uid as u64);
                assert(m@ =~= e.path@ + " is owned by uid "@ + decimal(*uid as nat)
                    + ", expected uid "@ + decimal(trusted_uid as nat));
                push_about(issues, path, severity, m);
            }
            if *mode & 0o022 != 0 {
                let mut m = String::new();
                m.append(e.path.as_str());
                m.append(" is group- or world-writable (mode ");
                m.append(octal_text(*mode).as_str());
                m.append(")");
                assert(m@ =~= e.path@ + " is group- or world-writable (mode "@ + octal(*mode)
                    + ")"@);
                push_about(issues, path, severity, m);
            }
        },
    }
    assert(issue_views(issues@) =~= i0 + issues_about(
        path@,
        severity,
        examined_messages(e@, trusted_uid),
    ));
}

/// What resolving and examining a configuration path gave.
pub open spec fn resolved_view(resolved: Result<Vec<Examined>, String>) -> Result<
    Seq<ExaminedView>,
    Seq<char>,
> {
    match resolved {
        Ok(v) => Ok(examined_views(v@)),
        Err(e) => Err(e@),
    }
}

/// Judges who may write a configuration path, from what came of resolving it
/// and examining the file and the directory that contains it.
pub fn ownership_issues(
    path: &str,
    options: &LoadOptions,
    resolved: &Result<Vec<Examined>, String>,
    issues: &mut Vec<Issue>,
)
    ensures
        issue_views(final(issues)@) == issue_views(old(issues)@) + ownership_of(
            path@,
            options@,
            resolved_view(*resolved),
        ),
{
    let severity = match options.ownership {
        OwnershipPolicy::Enforce => Severity::Error,
        OwnershipPolicy::Warn => Severity::Warning,
    };
    let ghost i0 = issue_views(issues@);
    match resolved {
        Err(e) => {
            push_about(issues, path, severity, two("cannot resolve path: ", e.as_str()));
        },
        Ok(examined) => {
            let ghost views = examined_views(examined@);
            let uid: u32 = options.trusted_uid;
            let mut k: usize = 0;
            assert(issue_views(issues@) =~= i0 + issues_about(
                path@,
                severity,
                all_messages(views.take(0), uid),
            ));
            while k < examined.len()
                invariant
                    k <= examined@.len(),
                    views == examined_views(examined@),
                    issue_views(issues@) == i0 + issues_about(
                        path@,
                        severity,
                        all_messages(views.take(k as int), uid),
                    ),
                decreases examined@.len() - k,
            {
                proof {
                    assert(views.take(k + 1).drop_last() =~= views.take(k as int));
                    assert(views.take(k + 1).last() == examined@[k as int]@);
                }
                examined_issues(path, severity, uid, &examined[k], issues);
                k += 1;
                assert(issue_views(issues@) =~= i0 + issues_about(
                    path@,
                    severity,
                    all_messages(views.take(k as int), uid),
                ));
            }
            assert(views.take(views.len() as int) =~= views);
        },
    }
}

/// A file that was read, and what came of parsing it.
#[derive(Debug, PartialEq, Eq)]
pub struct Document {
    /// Where it was read from.
    pub path: String,
    /// What it says, or why it cannot be parsed.
    pub content: Result<RawFile, String>,
    /// Whether it is the main file.
    pub main: bool,
}

/// What a document stands for.
pub struct DocumentView {
    /// Where it was read from.
    pub path: Seq<char>,
    /// What it says, or why it cannot be parsed.
    pub content: Result<RawFileView, Seq<char>>,
    /// Whether it is the main file.
    pub main: bool,
}

impl View for Document {
    type V = DocumentView;

    open spec fn view(&self) -> DocumentView {
        DocumentView {
            path: self.path@,
            content: match self.content {
                Ok(raw) => Ok(raw@),
                Err(e) => Err(e@),
            },
            main: self.main,
        }
    }
}

/// The views of a list of documents.
pub open spec fn document_views(documents: Seq<Document>) -> Seq<DocumentView> {
    documents.map_values(|d: Document| d@)
}

/// The documents that could be parsed.
pub open spec fn parsed_of(documents: Seq<DocumentView>) -> Seq<ParsedView>
    decreases documents.len(),
{
    if documents.len() == 0 {
        Seq::empty()
    } else {
        let front = parsed_of(documents.drop_last());
        match documents.last().content {
            Ok(raw) => front.push(
                ParsedView { path: documents.last().path, raw, main: documents.last().main },
            ),
            Err(_) => front,
        }
    }
}

/// The issues of the documents that could not be parsed.
pub open spec fn unparsed_of(documents: Seq<DocumentView>) -> Seq<IssueView>
    decreases documents.len(),
{
    if documents.len() == 0 {
        Seq::empty()
    } else {
        let front = unparsed_of(documents.drop_last());
        match documents.last().content {
            Ok(_) => front,
            Err(e) => front.push(error(documents.last().path, None, "invalid TOML: "@ + e)),
        }
    }
}

/// The documents that could be parsed. What is wrong with the others is added
/// to the issues.
pub fn parsed_files(documents: Vec<Document>, issues: &mut Vec<Issue>) -> (r: Vec<ParsedFile>)
    ensures
        parsed_views(r@) == parsed_of(document_views(documents@)),
        issue_views(final(issues)@) == issue_views(old(issues)@) + unparsed_of(
            document_views(documents@),
        ),
{
    let ghost views = document_views(documents@);
    let ghost i0 = issue_views(issues@);
    let mut out: Vec<ParsedFile> = Vec::new();
    assert(parsed_views(out@) =~= parsed_of(views.take(0)));
    assert(issue_views(issues@) =~= i0 + unparsed_of(views.take(0)));
    for document in it: documents
        invariant
            it.seq() == documents@,
            views == document_views(documents@),
            parsed_views(out@) == parsed_of(views.take(it.index() as int)),
            issue_views(issues@) == i0 + unparsed_of(views.take(it.index() as int)),
    {
        let ghost k = it.index() as int;
        let ghost p1 = parsed_views(out@);
        proof {
            assert(views.take(k + 1).drop_last() =~= views.take(k));
            assert(views.take(k + 1).last() == document@);
        }
        match document.content {
            Ok(raw) => {
                let file = ParsedFile { path: document.path, raw, main: document.main };
                let ghost added = file@;
                out.push(file);
                assert(parsed_views(out@) =~= p1.push(added));
            },
            Err(e) => {
                push_error(
                    issues,
                    document.path.as_str(),
                    None,
                    two("invalid TOML: ", e.as_str()),
                );
            },
        }
        assert(issue_views(issues@) =~= i0 + unparsed_of(views.take(k + 1)));
    }
    assert(views.take(views.len() as int) =~= views);
    out
}

/// The warning that there is no configuration at all.
pub open spec fn nothing_found() -> IssueView {
    IssueView {
        severity: Severity::Warning,
        file: None,
        group: None,
        message: "no configuration files found; no groups are defined"@,
    }
}

/// The issues once the documents are parsed, before they are validated. That
/// no file was found is worth a warning, unless something else went wrong.
pub open spec fn parse_issues(
    issues: Seq<IssueView>,
    documents: Seq<DocumentView>,
    warn_empty: bool,
) -> Seq<IssueView> {
    let all = issues + unparsed_of(documents);
    if warn_empty && parsed_of(documents).len() == 0 && !has_error(all) {
        all.push(nothing_found())
    } else {
        all
    }
}

/// Parses and validates what the files say: the configuration, and every
/// issue found so far and here.
pub fn validate(
    documents: Vec<Document>,
    warn_empty: bool,
    issues: &mut Vec<Issue>,
) -> (r: Config)
    ensures
        ({
            let before = parse_issues(
                issue_views(old(issues)@),
                document_views(documents@),
                warn_empty,
            );
            (r@, issue_views(final(issues)@)) == validated(
                parsed_of(document_views(documents@)),
                before,
            )
        }),
{
    let files = parsed_files(documents, issues);
    assert(parsed_views(files@).len() == files@.len());
    if warn_empty && files.len() == 0 && !has_errors(issues) {
        push_issue(
            issues,
            Severity::Warning,
            None,
            None,
            "no configuration files found; no groups are defined".to_owned(),
        );
    }
    assemble(&files, issues)
}

/// Validates configuration from documents in memory, without touching the
/// filesystem.
pub fn load_documents(documents: Vec<Document>) -> (r: Result<Loaded, LoadError>)
    ensures
        ({
            let views = document_views(documents@);
            let (config, issues) = validated(parsed_of(views), unparsed_of(views));
            match r {
                Ok(loaded) => !has_error(issues) && loaded.config@ == config && issue_views(
                    loaded.warnings@,
                ) == issues,
                Err(e) => has_error(issues) && issue_views(e.issues@) == issues,
            }
        }),
{
    let mut issues: Vec<Issue> = Vec::new();
    assert(issue_views(issues@) + unparsed_of(document_views(documents@)) =~= unparsed_of(
        document_views(documents@),
    ));
    let config = validate(documents, false, &mut issues);
    settle(config, issues)
}

/// A directory that the configuration names.
#[derive(Debug, PartialEq, Eq)]
pub struct NamedDir {
    /// The file that names it, if any does.
    pub origin: Option<String>,
    /// The group that names it, if any does.
    pub group: Option<String>,
    /// The setting that names it.
    pub field: String,
    /// Its path.
    pub path: AbsPath,
}

/// What a named directory stands for.
#[verifier::ext_equal]
pub struct NamedDirView {
    /// The file that names it, if any does.
    pub origin: Option<Seq<char>>,
    /// The group that names it, if any does.
    pub group: Option<Seq<char>>,
    /// The setting that names it.
    pub field: Seq<char>,
    /// Its path.
    pub path: Seq<char>,
}

impl View for NamedDir {
    type V = NamedDirView;

    open spec fn view(&self) -> NamedDirView {
        NamedDirView {
            origin: optional_text(self.origin),
            group: optional_text(self.group),
            field: self.field@,
            path: self.path@,
        }
    }
}

/// The views of a list of named directories.
pub open spec fn dir_views(dirs: Seq<NamedDir>) -> Seq<NamedDirView> {
    dirs.map_values(|d: NamedDir| d@)
}

/// The directories that a group names.
pub open spec fn group_dirs(g: GroupView) -> Seq<NamedDirView> {
    seq![
        NamedDirView {
            origin: Some(g.origin),
            group: Some(g.name),
            field: "source_root"@,
            path: g.source_root,
        },
        NamedDirView {
            origin: Some(g.origin),
            group: Some(g.name),
            field: "target_root"@,
            path: g.target_root,
        },
        NamedDirView {
            origin: Some(g.origin),
            group: Some(g.name),
            field: "membership"@,
            path: g.membership,
        },
    ]
}

/// The directories that the groups among `names` name, in order.
pub open spec fn groups_dirs(groups: Map<Seq<char>, GroupView>, names: Seq<Seq<char>>) -> Seq<
    NamedDirView,
>
    decreases names.len(),
{
    if names.len() == 0 {
        Seq::empty()
    } else {
        groups_dirs(groups, names.drop_last()) + group_dirs(groups[names.last()])
    }
}

/// The directories that a group set names.
pub open spec fn set_dirs(s: SetView) -> Seq<NamedDirView> {
    seq![
        NamedDirView {
            origin: Some(s.origin),
            group: Some(set_label(s.name)),
            field: "source_root"@,
            path: s.source_root,
        },
        NamedDirView {
            origin: Some(s.origin),
            group: Some(set_label(s.name)),
            field: "target_root"@,
            path: s.target_root,
        },
        NamedDirView {
            origin: Some(s.origin),
            group: Some(set_label(s.name)),
            field: "membership_root"@,
            path: s.membership_root,
        },
    ]
}

/// The directories that the sets among `names` name, in order.
pub open spec fn sets_dirs(sets: Map<Seq<char>, SetView>, names: Seq<Seq<char>>) -> Seq<NamedDirView>
    decreases names.len(),
{
    if names.len() == 0 {
        Seq::empty()
    } else {
        sets_dirs(sets, names.drop_last()) + set_dirs(sets[names.last()])
    }
}

/// The directories that a configuration names: the state directory, then those
/// of each group and each group set.
pub open spec fn named_dirs(config: ConfigView) -> Seq<NamedDirView> {
    seq![
        NamedDirView {
            origin: if config.files.len() == 0 {
                None
            } else {
                Some(config.files[0])
            },
            group: None,
            field: "daemon.state_dir"@,
            path: config.daemon.state_dir,
        },
    ] + groups_dirs(config.groups, in_order::<Name>(config.groups.dom())) + sets_dirs(
        config.sets,
        in_order::<Name>(config.sets.dom()),
    )
}

fn group_dir(group: &GroupConfig, field: &str, path: &AbsPath) -> (r: NamedDir)
    ensures
        r@ == (NamedDirView {
            origin: Some(group@.origin),
            group: Some(group@.name),
            field: field@,
            path: path@,
        }),
{
    NamedDir {
        origin: Some(group.origin.clone()),
        group: Some(group.name.as_str().to_owned()),
        field: field.to_owned(),
        path: path.clone(),
    }
}

fn set_dir(set: &GroupSetConfig, field: &str, path: &AbsPath) -> (r: NamedDir)
    ensures
        r@ == (NamedDirView {
            origin: Some(set@.origin),
            group: Some(set_label(set@.name)),
            field: field@,
            path: path@,
        }),
{
    NamedDir {
        origin: Some(set.origin.clone()),
        group: Some(set_text(&set.name)),
        field: field.to_owned(),
        path: path.clone(),
    }
}

/// The directories that a configuration names, all of which must exist.
pub fn directories(config: &Config) -> (r: Vec<NamedDir>)
    ensures
        dir_views(r@) == named_dirs(config@),
{
    let origin = if config.files.len() == 0 {
        None
    } else {
        Some(config.files[0].clone())
    };
    let first = NamedDir {
        origin,
        group: None,
        field: "daemon.state_dir".to_owned(),
        path: config.daemon.state_dir.clone(),
    };
    let ghost head = first@;
    proof {
        assert(texts(config.files@).len() == config.files@.len());
        if config.files@.len() > 0 {
            assert(config@.files[0] == config.files@[0]@);
        }
    }
    let mut out: Vec<NamedDir> = Vec::new();
    out.push(first);
    let n: usize = config.groups.len();
    let ghost names = config.groups.keys();
    let ghost groups = config.groups@;
    let mut i: usize = 0;
    assert(dir_views(out@) =~= seq![head] + groups_dirs(groups, names.take(0)));
    while i < n
        invariant
            i <= n,
            n == names.len(),
            names == config.groups.keys(),
            groups == config.groups@,
            dir_views(out@) == seq![head] + groups_dirs(groups, names.take(i as int)),
        decreases n - i,
    {
        let group = config.groups.value_at(i);
        let ghost before = dir_views(out@);
        proof {
            assert(names.take(i + 1).drop_last() =~= names.take(i as int));
            assert(names.take(i + 1).last() == names[i as int]);
        }
        out.push(group_dir(group, "source_root", &group.source_root));
        out.push(group_dir(group, "target_root", &group.target_root));
        out.push(group_dir(group, "membership", &group.membership));
        assert(dir_views(out@) =~= before + group_dirs(group@));
        i += 1;
        assert(dir_views(out@) =~= seq![head] + groups_dirs(groups, names.take(i as int)));
    }
    assert(names.take(names.len() as int) =~= names);
    let ghost start = dir_views(out@);
    let m: usize = config.sets.len();
    let ghost set_names = config.sets.keys();
    let ghost sets = config.sets@;
    let mut j: usize = 0;
    assert(dir_views(out@) =~= start + sets_dirs(sets, set_names.take(0)));
    while j < m
        invariant
            j <= m,
            m == set_names.len(),
            set_names == config.sets.keys(),
            sets == config.sets@,
            dir_views(out@) == start + sets_dirs(sets, set_names.take(j as int)),
        decreases m - j,
    {
        let set = config.sets.value_at(j);
        let ghost before = dir_views(out@);
        proof {
            assert(set_names.take(j + 1).drop_last() =~= set_names.take(j as int));
            assert(set_names.take(j + 1).last() == set_names[j as int]);
        }
        out.push(set_dir(set, "source_root", &set.source_root));
        out.push(set_dir(set, "target_root", &set.target_root));
        out.push(set_dir(set, "membership_root", &set.membership_root));
        assert(dir_views(out@) =~= before + set_dirs(set@));
        j += 1;
        assert(dir_views(out@) =~= start + sets_dirs(sets, set_names.take(j as int)));
    }
    assert(set_names.take(set_names.len() as int) =~= set_names);
    out
}

/// What came of looking for a directory.
#[derive(Debug, PartialEq, Eq)]
pub enum DirOutcome {
    /// It is a directory.
    Directory,
    /// It exists, but is no directory.
    NotADirectory,
    /// It does not exist.
    Missing,
    /// It may not be looked at.
    Denied(String),
    /// It could not be looked at.
    Failed(String),
}

/// The issue that looking for a directory gives, if any. A directory that may
/// not be looked at is worth a warning only.
pub open spec fn dir_issue(d: NamedDirView, outcome: DirOutcome) -> Option<IssueView> {
    let issue = |severity: Severity, message: Seq<char>|
        IssueView { severity, file: d.origin, group: d.group, message };
    match outcome {
        DirOutcome::Directory => None,
        DirOutcome::NotADirectory => Some(
            issue(Severity::Error, d.field + ": "@ + d.path + " is not a directory"@),
        ),
        DirOutcome::Missing => Some(
            issue(Severity::Error, d.field + ": "@ + d.path + " does not exist"@),
        ),
        DirOutcome::Denied(e) => Some(
            issue(Severity::Warning, d.field + ": cannot verify "@ + d.path + ": "@ + e@),
        ),
        DirOutcome::Failed(e) => Some(
            issue(Severity::Error, d.field + ": cannot access "@ + d.path + ": "@ + e@),
        ),
    }
}

fn four(a: &str, b: &str, c: &str, d: &str) -> (r: String)
    ensures
        r@ == a@ + b@ + c@ + d@,
{
    let mut out = String::new();
    out.append(a);
    out.append(b);
    out.append(c);
    out.append(d);
    assert(out@ =~= a@ + b@ + c@ + d@);
    out
}

/// Judges a directory that the configuration names, from what came of looking
/// for it.
pub fn path_issue(d: &NamedDir, outcome: &DirOutcome, issues: &mut Vec<Issue>)
    ensures
        issue_views(final(issues)@) == (match dir_issue(d@, *outcome) {
            Some(issue) => issue_views(old(issues)@).push(issue),
            None => issue_views(old(issues)@),
        }),
{
    let field = d.field.as_str();
    let path = d.path.as_path();
    let (severity, message) = match outcome {
        DirOutcome::Directory => return ,
        DirOutcome::NotADirectory => (
            Severity::Error,
            four(field, ": ", path, " is not a directory"),
        ),
        DirOutcome::Missing => (Severity::Error, four(field, ": ", path, " does not exist")),
        DirOutcome::Denied(e) => (
            Severity::Warning,
            two(four(field, ": cannot verify ", path, ": ").as_str(), e.as_str()),
        ),
        DirOutcome::Failed(e) => (
            Severity::Error,
            two(four(field, ": cannot access ", path, ": ").as_str(), e.as_str()),
        ),
    };
    let file: Option<&str> = match &d.origin {
        Some(s) => Some(s.as_str()),
        None => None,
    };
    let group: Option<&str> = match &d.group {
        Some(s) => Some(s.as_str()),
        None => None,
    };
    push_issue(issues, severity, file, group, message);
}

// Laws.

/// Whether names can be interpolated into the templates of every group.
pub open spec fn ready_groups(groups: Map<Seq<char>, GroupView>) -> bool {
    forall|name: Seq<char>| #[trigger]
        groups.contains_key(name) ==> bound_template(groups[name].source) && bound_template(
            groups[name].target,
        )
}

proof fn lemma_assemble_groups_ready(
    a: Assembly,
    path: Seq<char>,
    groups: Map<Seq<char>, RawGroupView>,
    names: Seq<Seq<char>>,
)
    requires
        ready_groups(a.config.groups),
    ensures
        ready_groups(assemble_groups(a, path, groups, names).config.groups),
    decreases names.len(),
{
    if names.len() > 0 {
        lemma_assemble_groups_ready(a, path, groups, names.drop_last());
        let raw = groups[names.last()];
        if parse_template(raw.source, false) is Ok {
            crate::template::lemma_template_components(raw.source, false);
        }
        if parse_template(raw.target, false) is Ok {
            crate::template::lemma_template_components(raw.target, false);
        }
    }
}

/// Every group of a validated configuration is complete: a member's name can
/// be interpolated into both of its templates.
pub proof fn law_validated_groups_are_ready(files: Seq<ParsedView>, issues: Seq<IssueView>)
    ensures
        ready_groups(assemble_files(files, issues).config.groups),
    decreases files.len(),
{
    if files.len() > 0 {
        law_validated_groups_are_ready(files.drop_last(), issues);
        let file = files.last();
        lemma_assemble_groups_ready(
            assemble_daemon(assemble_files(files.drop_last(), issues), file),
            file.path,
            file.raw.groups,
            in_order::<String>(file.raw.groups.dom()),
        );
    }
}

proof fn lemma_cross_one_grows(
    groups: Map<Seq<char>, GroupView>,
    name: Seq<char>,
    others: Seq<Seq<char>>,
    k: int,
)
    requires
        0 <= k < others.len(),
        membership_beneath(groups[name], groups[others[k]]),
    ensures
        cross_one(groups, name, others).contains(beneath_issue(groups[name], groups[others[k]])),
    decreases others.len(),
{
    let issue = beneath_issue(groups[name], groups[others[k]]);
    let all = cross_one(groups, name, others);
    let front = cross_one(groups, name, others.drop_last());
    if k < others.len() - 1 {
        lemma_cross_one_grows(groups, name, others.drop_last(), k);
        assert(others.drop_last()[k] == others[k]);
        let j = choose|j: int| 0 <= j < front.len() && front[j] == issue;
        assert(all[j] == issue);
    } else {
        assert(all[all.len() - 1] == issue);
    }
}

proof fn lemma_cross_all_grows(
    groups: Map<Seq<char>, GroupView>,
    names: Seq<Seq<char>>,
    all: Seq<Seq<char>>,
    i: int,
    k: int,
)
    requires
        0 <= i < names.len(),
        0 <= k < all.len(),
        membership_beneath(groups[names[i]], groups[all[k]]),
    ensures
        cross_all(groups, names, all).contains(
            beneath_issue(groups[names[i]], groups[all[k]]),
        ),
    decreases names.len(),
{
    let issue = beneath_issue(groups[names[i]], groups[all[k]]);
    let found = cross_all(groups, names, all);
    let front = cross_all(groups, names.drop_last(), all);
    let last = cross_one(groups, names.last(), all);
    if i < names.len() - 1 {
        lemma_cross_all_grows(groups, names.drop_last(), all, i, k);
        let j = choose|j: int| 0 <= j < front.len() && front[j] == issue;
        assert(found[j] == issue);
    } else {
        lemma_cross_one_grows(groups, names.last(), all, k);
        let j = choose|j: int| 0 <= j < last.len() && last[j] == issue;
        assert(found[front.len() + j] == issue);
    }
}

/// A configuration in which a membership directory lies at or beneath some
/// group's target root is refused: whoever could write a view could then
/// change a membership.
pub proof fn law_membership_never_beneath_target(
    groups: Map<Seq<char>, GroupView>,
    a: Seq<char>,
    b: Seq<char>,
)
    requires
        groups.dom().finite(),
        groups.contains_key(a),
        groups.contains_key(b),
        membership_beneath(groups[a], groups[b]),
    ensures
        has_error(cross_issues(groups)),
{
    let names = in_order::<Name>(groups.dom());
    crate::order::lemma_in_order_finite::<Name>(groups.dom());
    assert(names.to_set().contains(a) && names.to_set().contains(b));
    let i = choose|i: int| 0 <= i < names.len() && names[i] == a;
    let k = choose|k: int| 0 <= k < names.len() && names[k] == b;
    lemma_cross_all_grows(groups, names, names, i, k);
    let issues = cross_issues(groups);
    let j = choose|j: int| 0 <= j < issues.len() && issues[j] == beneath_issue(groups[a], groups[b]);
    assert(issues[j].severity == Severity::Error);
}

} // verus!
