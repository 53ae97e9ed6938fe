//! Pure capability-normalization planning.
//!
//! Given the process's current credentials and what the caller needs, decide
//! the exact sequence of credential operations that brings the process to a
//! minimal state.
//!
//! A capability set is a number in which bit `n` stands for the capability
//! that the kernel numbers `n`.
use vstd::prelude::*;
use vstd::string::*;

verus! {

/// `CAP_SETGID`.
pub const CAP_SETGID: u64 = 0x40;

/// `CAP_SETUID`.
pub const CAP_SETUID: u64 = 0x80;

/// `CAP_SETPCAP`.
pub const CAP_SETPCAP: u64 = 0x100;

/// `CAP_SYS_ADMIN`.
pub const CAP_SYS_ADMIN: u64 = 0x20_0000;

/// `SECBIT_NOROOT`.
pub const SECBIT_NO_ROOT: u32 = 0x01;

/// `SECBIT_NOROOT_LOCKED`.
pub const SECBIT_NO_ROOT_LOCKED: u32 = 0x02;

/// `SECBIT_NO_SETUID_FIXUP`.
pub const SECBIT_NO_SETUID_FIXUP: u32 = 0x04;

/// `SECBIT_NO_SETUID_FIXUP_LOCKED`.
pub const SECBIT_NO_SETUID_FIXUP_LOCKED: u32 = 0x08;

/// `SECBIT_KEEP_CAPS_LOCKED`.
pub const SECBIT_KEEP_CAPS_LOCKED: u32 = 0x20;

/// `SECBIT_NO_CAP_AMBIENT_RAISE`.
pub const SECBIT_NO_CAP_AMBIENT_RAISE: u32 = 0x40;

/// `SECBIT_NO_CAP_AMBIENT_RAISE_LOCKED`.
pub const SECBIT_NO_CAP_AMBIENT_RAISE_LOCKED: u32 = 0x80;

/// Securebits set and locked when `CAP_SETPCAP` is available: never grant
/// capabilities to root on exec, never adjust capabilities on UID changes,
/// never keep capabilities via `PR_SET_KEEPCAPS`, never raise ambient
/// capabilities.
pub const LOCKED_SECURE_BITS: u32 = 0xef;

/// Capability sets of a process.
#[derive(Debug, Clone, Copy, PartialEq, Eq, Structural)]
pub struct CapabilitySets {
    /// Effective set.
    pub effective: u64,
    /// Permitted set.
    pub permitted: u64,
    /// Inheritable set.
    pub inheritable: u64,
}

/// Whether `set` holds every capability of `caps`.
pub open spec fn holds(set: u64, caps: u64) -> bool {
    set & caps == caps
}

/// Current credentials of the process.
#[derive(Debug, Clone, Copy, PartialEq, Eq)]
pub struct Credentials {
    /// Real, effective and saved user IDs.
    pub uids: [u32; 3],
    /// Capability sets.
    pub caps: CapabilitySets,
}

impl Credentials {
    /// Whether one of the user IDs is root's.
    pub open spec fn is_root(self) -> bool {
        self.uids@[0] == 0 || self.uids@[1] == 0 || self.uids@[2] == 0
    }

    fn any_uid_is_root(&self) -> (r: bool)
        ensures
            r == self.is_root(),
    {
        self.uids[0] == 0 || self.uids[1] == 0 || self.uids[2] == 0
    }
}

/// A resolved service user.
#[derive(Debug, PartialEq, Eq)]
pub struct ServiceUser {
    /// User name.
    pub name: String,
    /// User ID.
    pub uid: u32,
    /// Primary group ID.
    pub gid: u32,
    /// Supplementary group IDs.
    pub groups: Vec<u32>,
}

/// What a service user stands for.
#[verifier::ext_equal]
pub struct ServiceUserView {
    /// User name.
    pub name: Seq<char>,
    /// User ID.
    pub uid: u32,
    /// Primary group ID.
    pub gid: u32,
    /// Supplementary group IDs.
    pub groups: Seq<u32>,
}

impl View for ServiceUser {
    type V = ServiceUserView;

    open spec fn view(&self) -> ServiceUserView {
        ServiceUserView { name: self.name@, uid: self.uid, gid: self.gid, groups: self.groups@ }
    }
}

impl Clone for ServiceUser {
    fn clone(&self) -> (r: Self)
        ensures
            r@ == self@,
    {
        ServiceUser {
            name: self.name.clone(),
            uid: self.uid,
            gid: self.gid,
            groups: clone_ids(&self.groups),
        }
    }
}

fn clone_ids(ids: &Vec<u32>) -> (r: Vec<u32>)
    ensures
        r@ == ids@,
{
    let mut out: Vec<u32> = Vec::new();
    let mut i: usize = 0;
    while i < ids.len()
        invariant
            i <= ids@.len(),
            out@ =~= ids@.take(i as int),
        decreases ids@.len() - i,
    {
        out.push(ids[i]);
        i += 1;
    }
    assert(out@ =~= ids@);
    out
}

impl ServiceUserView {
    /// The groups that a switch to the user sets: the supplementary groups,
    /// with the primary group among them.
    pub open spec fn all_groups(self) -> Seq<u32> {
        if self.groups.contains(self.gid) {
            self.groups
        } else {
            seq![self.gid] + self.groups
        }
    }
}

impl ServiceUser {
    /// The groups a switch to this user sets: its primary group, with the
    /// primary group also among the supplementary groups.
    fn final_groups(&self) -> (r: FinalGroups)
        ensures
            r.gid == self@.gid,
            r.groups@ == self@.all_groups(),
    {
        let mut found: bool = false;
        let mut i: usize = 0;
        while i < self.groups.len()
            invariant
                i <= self.groups@.len(),
                found == exists|j: int| 0 <= j < i && self.groups@[j] == self.gid,
            decreases self.groups@.len() - i,
        {
            if self.groups[i] == self.gid {
                found = true;
            }
            i += 1;
        }
        let mut groups: Vec<u32> = clone_ids(&self.groups);
        if !found {
            groups.insert(0, self.gid);
            assert(groups@ =~= seq![self.gid] + self.groups@);
        }
        FinalGroups { gid: self.gid, groups }
    }
}

/// What the caller needs after normalization.
#[derive(Debug, Clone, Copy, PartialEq, Eq, Structural)]
pub enum Goal {
    /// Keep exactly `CAP_SYS_ADMIN` (daemon, `byssus reconcile`).
    KeepSysAdmin,
    /// Keep no capabilities (`byssus dry-run` simulating the service user).
    DropAll,
}

impl Goal {
    /// The capabilities to keep.
    pub open spec fn kept(self) -> u64 {
        match self {
            Goal::KeepSysAdmin => CAP_SYS_ADMIN,
            Goal::DropAll => 0,
        }
    }
}

/// A normalization request.
#[derive(Debug, PartialEq, Eq)]
pub struct Request {
    /// Capabilities to keep.
    pub goal: Goal,
    /// Service user to switch to if running as root.
    pub user: Option<ServiceUser>,
    /// Permit remaining UID 0 when no service user is configured.
    pub allow_root: bool,
}

/// What a request stands for.
#[verifier::ext_equal]
pub struct RequestView {
    /// Capabilities to keep.
    pub goal: Goal,
    /// Service user to switch to if running as root.
    pub user: Option<ServiceUserView>,
    /// Permit remaining UID 0 when no service user is configured.
    pub allow_root: bool,
}

impl View for Request {
    type V = RequestView;

    open spec fn view(&self) -> RequestView {
        RequestView {
            goal: self.goal,
            user: match self.user {
                Some(u) => Some(u@),
                None => None,
            },
            allow_root: self.allow_root,
        }
    }
}

/// One credential operation, applied in order.
#[derive(Debug, PartialEq, Eq)]
pub enum Op {
    /// `PR_CAP_AMBIENT_CLEAR_ALL`.
    ClearAmbient,
    /// `capset` to the given sets.
    SetCaps(CapabilitySets),
    /// `PR_CAPBSET_DROP` for every capability not in the set.
    DropBoundingExcept(u64),
    /// `PR_SET_SECUREBITS`.
    SetSecureBits(u32),
    /// `PR_SET_KEEPCAPS`.
    SetKeepCaps(bool),
    /// `setgroups`.
    SetGroups(Vec<u32>),
    /// `setresgid` with all three IDs equal.
    SetResGid(u32),
    /// `setresuid` with all three IDs equal.
    SetResUid(u32),
    /// `PR_SET_NO_NEW_PRIVS`.
    SetNoNewPrivs,
}

/// What an operation stands for.
#[verifier::ext_equal]
pub enum OpView {
    /// `PR_CAP_AMBIENT_CLEAR_ALL`.
    ClearAmbient,
    /// `capset` to the given sets.
    SetCaps(CapabilitySets),
    /// `PR_CAPBSET_DROP` for every capability not in the set.
    DropBoundingExcept(u64),
    /// `PR_SET_SECUREBITS`.
    SetSecureBits(u32),
    /// `PR_SET_KEEPCAPS`.
    SetKeepCaps(bool),
    /// `setgroups`.
    SetGroups(Seq<u32>),
    /// `setresgid` with all three IDs equal.
    SetResGid(u32),
    /// `setresuid` with all three IDs equal.
    SetResUid(u32),
    /// `PR_SET_NO_NEW_PRIVS`.
    SetNoNewPrivs,
}

impl View for Op {
    type V = OpView;

    open spec fn view(&self) -> OpView {
        match self {
            Op::ClearAmbient => OpView::ClearAmbient,
            Op::SetCaps(sets) => OpView::SetCaps(*sets),
            Op::DropBoundingExcept(keep) => OpView::DropBoundingExcept(*keep),
            Op::SetSecureBits(bits) => OpView::SetSecureBits(*bits),
            Op::SetKeepCaps(on) => OpView::SetKeepCaps(*on),
            Op::SetGroups(groups) => OpView::SetGroups(groups@),
            Op::SetResGid(gid) => OpView::SetResGid(*gid),
            Op::SetResUid(uid) => OpView::SetResUid(*uid),
            Op::SetNoNewPrivs => OpView::SetNoNewPrivs,
        }
    }
}

/// The views of a list of operations.
pub open spec fn op_views(ops: Seq<Op>) -> Seq<OpView> {
    ops.map_values(|op: Op| op@)
}

/// A non-fatal observation about the plan.
#[derive(Debug, PartialEq, Eq)]
pub enum Warning {
    /// Remaining UID 0 because `allow_root` was given.
    RunningAsRoot,
    /// A service user is configured but the process is not root, so no switch
    /// happens.
    UserNotApplied {
        /// Configured user name.
        user: String,
        /// The effective UID the process keeps.
        effective_uid: u32,
    },
}

/// What a warning stands for.
#[verifier::ext_equal]
pub enum WarningView {
    /// Remaining UID 0 because `allow_root` was given.
    RunningAsRoot,
    /// A service user is configured but the process is not root.
    UserNotApplied {
        /// Configured user name.
        user: Seq<char>,
        /// The effective UID the process keeps.
        effective_uid: u32,
    },
}

impl View for Warning {
    type V = WarningView;

    open spec fn view(&self) -> WarningView {
        match self {
            Warning::RunningAsRoot => WarningView::RunningAsRoot,
            Warning::UserNotApplied { user, effective_uid } => WarningView::UserNotApplied {
                user: user@,
                effective_uid: *effective_uid,
            },
        }
    }
}

/// The views of a list of warnings.
pub open spec fn warning_views(warnings: Seq<Warning>) -> Seq<WarningView> {
    warnings.map_values(|w: Warning| w@)
}

/// Normalization cannot proceed.
#[derive(Debug, PartialEq, Eq)]
pub enum PlanError {
    /// `CAP_SYS_ADMIN` is required but not permitted.
    MissingSysAdmin,
    /// Running as root with no service user and no `allow_root`.
    RootWithoutUser,
    /// The configured service user is root.
    ServiceUserIsRoot(String),
    /// Cannot switch user because a needed capability is missing.
    CannotSwitchUser {
        /// Configured user name.
        user: String,
        /// The missing capability.
        missing: &'static str,
    },
}

/// Why normalization cannot proceed.
#[verifier::ext_equal]
pub enum PlanErrorView {
    /// `CAP_SYS_ADMIN` is required but not permitted.
    MissingSysAdmin,
    /// Running as root with no service user and no `allow_root`.
    RootWithoutUser,
    /// The configured service user is root.
    ServiceUserIsRoot(Seq<char>),
    /// Cannot switch user because a needed capability is missing.
    CannotSwitchUser {
        /// Configured user name.
        user: Seq<char>,
        /// The missing capability.
        missing: Seq<char>,
    },
}

impl View for PlanError {
    type V = PlanErrorView;

    open spec fn view(&self) -> PlanErrorView {
        match self {
            PlanError::MissingSysAdmin => PlanErrorView::MissingSysAdmin,
            PlanError::RootWithoutUser => PlanErrorView::RootWithoutUser,
            PlanError::ServiceUserIsRoot(user) => PlanErrorView::ServiceUserIsRoot(user@),
            PlanError::CannotSwitchUser { user, missing } => PlanErrorView::CannotSwitchUser {
                user: user@,
                missing: missing@,
            },
        }
    }
}

impl PlanErrorView {
    /// The text of the error.
    pub open spec fn text(self) -> Seq<char> {
        match self {
            PlanErrorView::MissingSysAdmin =>
                "CAP_SYS_ADMIN is not permitted; run under systemd with AmbientCapabilities=CAP_SYS_ADMIN, or apply 'setcap cap_sys_admin+ep' to the binary"@,
            PlanErrorView::RootWithoutUser =>
                "refusing to run as root: configure daemon.user (or pass --user) so privileges can be dropped, or pass --allow-root for development and testing"@,
            PlanErrorView::ServiceUserIsRoot(user) => "service user '"@ + user
                + "' has UID 0; choose an unprivileged user"@,
            PlanErrorView::CannotSwitchUser { user, missing } => "cannot switch to user '"@ + user
                + "': "@ + missing + " is not permitted"@,
        }
    }
}

impl PlanError {
    /// Describes the error.
    pub fn message(&self) -> (r: String)
        ensures
            r@ == self@.text(),
    {
        match self {
            PlanError::MissingSysAdmin =>
                "CAP_SYS_ADMIN is not permitted; run under systemd with AmbientCapabilities=CAP_SYS_ADMIN, or apply 'setcap cap_sys_admin+ep' to the binary".to_owned(),
            PlanError::RootWithoutUser =>
                "refusing to run as root: configure daemon.user (or pass --user) so privileges can be dropped, or pass --allow-root for development and testing".to_owned(),
            PlanError::ServiceUserIsRoot(user) => {
                let mut out = String::new();
                out.append("service user '");
                out.append(user.as_str());
                out.append("' has UID 0; choose an unprivileged user");
                assert(out@ =~= self@.text());
                out
            },
            PlanError::CannotSwitchUser { user, missing } => {
                let mut out = String::new();
                out.append("cannot switch to user '");
                out.append(user.as_str());
                out.append("': ");
                out.append(missing);
                out.append(" is not permitted");
                assert(out@ =~= self@.text());
                out
            },
        }
    }
}

/// Groups expected after a user switch.
#[derive(Debug, PartialEq, Eq)]
pub struct FinalGroups {
    /// GID expected (all of real, effective, saved).
    pub gid: u32,
    /// Supplementary groups expected, including `gid`.
    pub groups: Vec<u32>,
}

/// The planned operations and the expected final state.
#[derive(Debug, PartialEq, Eq)]
pub struct PrivilegePlan {
    /// Operations in order.
    pub ops: Vec<Op>,
    /// Non-fatal warnings.
    pub warnings: Vec<Warning>,
    /// UID expected after applying (all of real, effective, saved).
    pub final_uid: u32,
    /// Capabilities expected in the effective and permitted sets afterwards;
    /// the inheritable and ambient sets are empty.
    pub final_caps: u64,
    /// Groups expected after switching to the service user, or `None` when
    /// no switch is planned and groups are left unchanged.
    pub final_groups: Option<FinalGroups>,
}

/// What a plan stands for.
#[verifier::ext_equal]
pub struct PrivilegePlanView {
    /// Operations in order.
    pub ops: Seq<OpView>,
    /// Non-fatal warnings.
    pub warnings: Seq<WarningView>,
    /// UID expected after applying.
    pub final_uid: u32,
    /// Capabilities expected afterwards.
    pub final_caps: u64,
    /// Primary and supplementary groups expected after a switch.
    pub final_groups: Option<(u32, Seq<u32>)>,
}

impl View for PrivilegePlan {
    type V = PrivilegePlanView;

    open spec fn view(&self) -> PrivilegePlanView {
        PrivilegePlanView {
            ops: op_views(self.ops@),
            warnings: warning_views(self.warnings@),
            final_uid: self.final_uid,
            final_caps: self.final_caps,
            final_groups: match self.final_groups {
                Some(g) => Some((g.gid, g.groups@)),
                None => None,
            },
        }
    }
}

/// The user to switch to, if any: only a process that is root switches.
pub open spec fn switch_to(current: Credentials, request: RequestView) -> Option<ServiceUserView> {
    if current.is_root() {
        request.user
    } else {
        None
    }
}

/// Why normalization cannot proceed, if it cannot.
pub open spec fn refusal(current: Credentials, request: RequestView) -> Option<PlanErrorView> {
    let permitted = current.caps.permitted;
    if request.goal == Goal::KeepSysAdmin && !holds(permitted, CAP_SYS_ADMIN) {
        Some(PlanErrorView::MissingSysAdmin)
    } else {
        match switch_to(current, request) {
            None => if current.is_root() && request.goal == Goal::KeepSysAdmin
                && !request.allow_root {
                Some(PlanErrorView::RootWithoutUser)
            } else {
                None
            },
            Some(user) => if user.uid == 0 {
                Some(PlanErrorView::ServiceUserIsRoot(user.name))
            } else if !holds(permitted, CAP_SETUID) {
                Some(
                    PlanErrorView::CannotSwitchUser { user: user.name, missing: "CAP_SETUID"@ },
                )
            } else if !holds(permitted, CAP_SETGID) {
                Some(
                    PlanErrorView::CannotSwitchUser { user: user.name, missing: "CAP_SETGID"@ },
                )
            } else {
                None
            },
        }
    }
}

/// What is worth a warning.
pub open spec fn warnings_of(current: Credentials, request: RequestView) -> Seq<WarningView> {
    if current.is_root() {
        if request.user is None && request.goal == Goal::KeepSysAdmin {
            seq![WarningView::RunningAsRoot]
        } else {
            Seq::empty()
        }
    } else {
        match request.user {
            Some(user) if current.uids@[1] != user.uid => seq![
                WarningView::UserNotApplied { user: user.name, effective_uid: current.uids@[1] },
            ],
            _ => Seq::empty(),
        }
    }
}

/// The capabilities that the operations use along the way.
pub open spec fn needed_caps(setpcap: bool, switching: bool) -> u64 {
    let first = if setpcap {
        CAP_SETPCAP
    } else {
        0
    };
    if switching {
        first | (CAP_SETUID | CAP_SETGID)
    } else {
        first
    }
}

/// Raising the capabilities that are used along the way, if they are not
/// effective yet.
pub open spec fn raising(caps: CapabilitySets, needed: u64) -> Seq<OpView> {
    if holds(caps.effective, needed) {
        Seq::empty()
    } else {
        seq![
            OpView::SetCaps(
                CapabilitySets {
                    effective: caps.effective | needed,
                    permitted: caps.permitted,
                    inheritable: 0,
                },
            ),
        ]
    }
}

/// Locking the way back, which takes `CAP_SETPCAP`.
pub open spec fn locking(setpcap: bool, keep: u64) -> Seq<OpView> {
    if setpcap {
        seq![OpView::DropBoundingExcept(keep), OpView::SetSecureBits(LOCKED_SECURE_BITS)]
    } else {
        Seq::empty()
    }
}

/// Switching the user. With `NO_SETUID_FIXUP` locked, capabilities survive the
/// UID change; without `CAP_SETPCAP`, `PR_SET_KEEPCAPS` is used.
pub open spec fn switching(user: Option<ServiceUserView>, setpcap: bool) -> Seq<OpView> {
    match user {
        None => Seq::empty(),
        Some(user) => {
            let ids = seq![
                OpView::SetGroups(user.all_groups()),
                OpView::SetResGid(user.gid),
                OpView::SetResUid(user.uid),
            ];
            if setpcap {
                ids
            } else {
                seq![OpView::SetKeepCaps(true)] + ids + seq![OpView::SetKeepCaps(false)]
            }
        },
    }
}

/// The end of every plan: exactly the kept capabilities, and no way to gain
/// others.
pub open spec fn ending(keep: u64) -> Seq<OpView> {
    seq![
        OpView::SetCaps(CapabilitySets { effective: keep, permitted: keep, inheritable: 0 }),
        OpView::SetNoNewPrivs,
    ]
}

/// The plan.
pub open spec fn planned(current: Credentials, request: RequestView) -> PrivilegePlanView {
    let keep = request.goal.kept();
    let user = switch_to(current, request);
    let setpcap = holds(current.caps.permitted, CAP_SETPCAP);
    PrivilegePlanView {
        ops: seq![OpView::ClearAmbient] + raising(
            current.caps,
            needed_caps(setpcap, user is Some),
        ) + locking(setpcap, keep) + switching(user, setpcap) + ending(keep),
        warnings: warnings_of(current, request),
        final_uid: match user {
            Some(user) => user.uid,
            None => current.uids@[1],
        },
        final_caps: keep,
        final_groups: match user {
            Some(user) => Some((user.gid, user.all_groups())),
            None => None,
        },
    }
}

fn push_op(ops: &mut Vec<Op>, op: Op)
    ensures
        op_views(final(ops)@) == op_views(old(ops)@).push(op@),
{
    let ghost before = op_views(ops@);
    let ghost added = op@;
    ops.push(op);
    assert(op_views(ops@) =~= before.push(added));
}

fn check_switch(user: &ServiceUser, permitted: u64) -> (r: Result<(), PlanError>)
    ensures
        match r {
            Ok(_) => user@.uid != 0 && holds(permitted, CAP_SETUID) && holds(permitted, CAP_SETGID),
            Err(e) => e@ == (if user@.uid == 0 {
                PlanErrorView::ServiceUserIsRoot(user@.name)
            } else if !holds(permitted, CAP_SETUID) {
                PlanErrorView::CannotSwitchUser { user: user@.name, missing: "CAP_SETUID"@ }
            } else {
                PlanErrorView::CannotSwitchUser { user: user@.name, missing: "CAP_SETGID"@ }
            }) && (user@.uid == 0 || !holds(permitted, CAP_SETUID) || !holds(
                permitted,
                CAP_SETGID,
            )),
        },
{
    if user.uid == 0 {
        return Err(PlanError::ServiceUserIsRoot(user.name.clone()));
    }
    if permitted & CAP_SETUID != CAP_SETUID {
        return Err(PlanError::CannotSwitchUser { user: user.name.clone(), missing: "CAP_SETUID" });
    }
    if permitted & CAP_SETGID != CAP_SETGID {
        return Err(PlanError::CannotSwitchUser { user: user.name.clone(), missing: "CAP_SETGID" });
    }
    Ok(())
}

/// The user to switch to, and what is worth a warning.
fn decide_user<'a>(current: &Credentials, request: &'a Request) -> (r: Result<
    (Option<&'a ServiceUser>, Vec<Warning>),
    PlanError,
>)
    requires
        request.goal == Goal::KeepSysAdmin ==> holds(current.caps.permitted, CAP_SYS_ADMIN),
    ensures
        match r {
            Ok((user, warnings)) => refusal(*current, request@) is None && warning_views(warnings@)
                == warnings_of(*current, request@) && (match user {
                Some(u) => switch_to(*current, request@) == Some(u@),
                None => switch_to(*current, request@) is None,
            }),
            Err(e) => refusal(*current, request@) == Some(e@),
        },
{
    let mut warnings: Vec<Warning> = Vec::new();
    assert(warning_views(warnings@) =~= Seq::<WarningView>::empty());
    let effective_uid: u32 = current.uids[1];
    match (current.any_uid_is_root(), &request.user) {
        (true, Some(user)) => match check_switch(user, current.caps.permitted) {
            Ok(_) => Ok((Some(user), warnings)),
            Err(e) => Err(e),
        },
        (true, None) => {
            if request.goal == Goal::KeepSysAdmin {
                if !request.allow_root {
                    return Err(PlanError::RootWithoutUser);
                }
                warnings.push(Warning::RunningAsRoot);
                assert(warning_views(warnings@) =~= seq![WarningView::RunningAsRoot]);
            }
            Ok((None, warnings))
        },
        (false, Some(user)) => {
            if effective_uid != user.uid {
                let warning = Warning::UserNotApplied { user: user.name.clone(), effective_uid };
                let ghost added = warning@;
                warnings.push(warning);
                assert(warning_views(warnings@) =~= seq![added]);
            }
            Ok((None, warnings))
        },
        (false, None) => Ok((None, warnings)),
    }
}

fn push_raising(ops: &mut Vec<Op>, caps: &CapabilitySets, needed: u64)
    ensures
        op_views(final(ops)@) == op_views(old(ops)@) + raising(*caps, needed),
{
    let ghost before = op_views(ops@);
    if caps.effective & needed != needed {
        push_op(
            ops,
            Op::SetCaps(
                CapabilitySets {
                    effective: caps.effective | needed,
                    permitted: caps.permitted,
                    inheritable: 0,
                },
            ),
        );
    }
    assert(op_views(ops@) =~= before + raising(*caps, needed));
}

fn push_locking(ops: &mut Vec<Op>, setpcap: bool, keep: u64)
    ensures
        op_views(final(ops)@) == op_views(old(ops)@) + locking(setpcap, keep),
{
    let ghost before = op_views(ops@);
    if setpcap {
        push_op(ops, Op::DropBoundingExcept(keep));
        push_op(ops, Op::SetSecureBits(LOCKED_SECURE_BITS));
    }
    assert(op_views(ops@) =~= before + locking(setpcap, keep));
}

fn push_switching(ops: &mut Vec<Op>, user: &ServiceUser, setpcap: bool) -> (r: FinalGroups)
    ensures
        op_views(final(ops)@) == op_views(old(ops)@) + switching(Some(user@), setpcap),
        r.gid == user@.gid,
        r.groups@ == user@.all_groups(),
{
    let ghost before = op_views(ops@);
    // With NO_SETUID_FIXUP locked, capabilities survive the UID change.
    // Without CAP_SETPCAP the securebits cannot be set, so KEEPCAPS is used.
    if !setpcap {
        push_op(ops, Op::SetKeepCaps(true));
    }
    let groups = user.final_groups();
    push_op(ops, Op::SetGroups(clone_ids(&groups.groups)));
    push_op(ops, Op::SetResGid(groups.gid));
    push_op(ops, Op::SetResUid(user.uid));
    if !setpcap {
        push_op(ops, Op::SetKeepCaps(false));
    }
    assert(op_views(ops@) =~= before + switching(Some(user@), setpcap));
    groups
}

fn push_ending(ops: &mut Vec<Op>, keep: u64)
    ensures
        op_views(final(ops)@) == op_views(old(ops)@) + ending(keep),
{
    let ghost before = op_views(ops@);
    push_op(
        ops,
        Op::SetCaps(CapabilitySets { effective: keep, permitted: keep, inheritable: 0 }),
    );
    push_op(ops, Op::SetNoNewPrivs);
    assert(op_views(ops@) =~= before + ending(keep));
}

/// Plans normalization.
pub fn plan(current: &Credentials, request: &Request) -> (r: Result<PrivilegePlan, PlanError>)
    ensures
        match r {
            Ok(p) => refusal(*current, request@) is None && p@ == planned(*current, request@),
            Err(e) => refusal(*current, request@) == Some(e@),
        },
{
    let keep: u64 = match request.goal {
        Goal::KeepSysAdmin => CAP_SYS_ADMIN,
        Goal::DropAll => 0,
    };
    let permitted: u64 = current.caps.permitted;
    if request.goal == Goal::KeepSysAdmin && permitted & CAP_SYS_ADMIN != CAP_SYS_ADMIN {
        return Err(PlanError::MissingSysAdmin);
    }
    let (user, warnings) = match decide_user(current, request) {
        Ok(decided) => decided,
        Err(e) => {
            return Err(e);
        },
    };
    let setpcap = permitted & CAP_SETPCAP == CAP_SETPCAP;
    // Capabilities used along the way must be effective first.
    let mut needed: u64 = 0;
    if setpcap {
        needed = CAP_SETPCAP;
    }
    if user.is_some() {
        needed = needed | (CAP_SETUID | CAP_SETGID);
    }
    let mut ops: Vec<Op> = Vec::new();
    assert(op_views(ops@) =~= Seq::<OpView>::empty());
    push_op(&mut ops, Op::ClearAmbient);
    assert(op_views(ops@) =~= seq![OpView::ClearAmbient]);
    push_raising(&mut ops, &current.caps, needed);
    push_locking(&mut ops, setpcap, keep);
    let ghost locked = op_views(ops@);
    let (final_uid, final_groups) = match user {
        Some(user) => (user.uid, Some(push_switching(&mut ops, user, setpcap))),
        None => {
            assert(locked + switching(None, setpcap) =~= locked);
            (current.uids[1], None)
        },
    };
    push_ending(&mut ops, keep);
    Ok(PrivilegePlan { ops, warnings, final_uid, final_caps: keep, final_groups })
}

// Laws.

/// The locked securebits: no root, no fixup of capabilities on UID changes, no
/// ambient raise and no keeping of capabilities, each of them locked.
pub proof fn law_locked_secure_bits()
    ensures
        LOCKED_SECURE_BITS == SECBIT_NO_ROOT | SECBIT_NO_ROOT_LOCKED | SECBIT_NO_SETUID_FIXUP
            | SECBIT_NO_SETUID_FIXUP_LOCKED | SECBIT_KEEP_CAPS_LOCKED | SECBIT_NO_CAP_AMBIENT_RAISE
            | SECBIT_NO_CAP_AMBIENT_RAISE_LOCKED,
{
    assert(0xefu32 == 0x01u32 | 0x02u32 | 0x04u32 | 0x08u32 | 0x20u32 | 0x40u32 | 0x80u32)
        by (bit_vector);
}

/// Every plan begins by clearing the ambient set and ends with exactly the
/// kept capabilities and no way to gain others.
pub proof fn law_plans_end_minimal(current: Credentials, request: RequestView)
    ensures
        ({
            let ops = planned(current, request).ops;
            let keep = request.goal.kept();
            &&& ops.len() >= 3
            &&& ops[0] == OpView::ClearAmbient
            &&& ops[ops.len() - 2] == OpView::SetCaps(
                CapabilitySets { effective: keep, permitted: keep, inheritable: 0 },
            )
            &&& ops[ops.len() - 1] == OpView::SetNoNewPrivs
        }),
{
}

/// Credentials of a process, as the kernel keeps them.
#[verifier::ext_equal]
pub struct KernelCredentials {
    /// Real, effective and saved user IDs.
    pub uids: (u32, u32, u32),
    /// Primary group, once it was set.
    pub gid: Option<u32>,
    /// Supplementary groups, once they were set.
    pub groups: Option<Seq<u32>>,
    /// Capability sets.
    pub caps: CapabilitySets,
    /// Ambient set.
    pub ambient: u64,
    /// Bounding set.
    pub bounding: u64,
    /// Securebits.
    pub secure_bits: u32,
    /// Whether the permitted set survives the next change of user IDs.
    pub keep_caps: bool,
    /// Whether no privileges can be gained by executing a program.
    pub no_new_privs: bool,
}

/// What the kernel makes of an operation, or `None` where it refuses it for
/// lack of privilege.
pub open spec fn kernel_apply(k: KernelCredentials, op: OpView) -> Option<KernelCredentials> {
    match op {
        OpView::ClearAmbient => Some(KernelCredentials { ambient: 0, ..k }),
        OpView::SetCaps(sets) => if holds(k.caps.permitted, sets.permitted) && holds(
            sets.permitted,
            sets.effective,
        ) && sets.inheritable == 0 {
            Some(KernelCredentials { caps: sets, ..k })
        } else {
            None
        },
        OpView::DropBoundingExcept(keep) => if holds(k.caps.effective, CAP_SETPCAP) {
            Some(KernelCredentials { bounding: k.bounding & keep, ..k })
        } else {
            None
        },
        OpView::SetSecureBits(bits) => if holds(k.caps.effective, CAP_SETPCAP) {
            Some(KernelCredentials { secure_bits: bits, ..k })
        } else {
            None
        },
        OpView::SetKeepCaps(on) => if k.secure_bits & SECBIT_KEEP_CAPS_LOCKED == 0 {
            Some(KernelCredentials { keep_caps: on, ..k })
        } else {
            None
        },
        OpView::SetGroups(groups) => if holds(k.caps.effective, CAP_SETGID) {
            Some(KernelCredentials { groups: Some(groups), ..k })
        } else {
            None
        },
        OpView::SetResGid(gid) => if holds(k.caps.effective, CAP_SETGID) {
            Some(KernelCredentials { gid: Some(gid), ..k })
        } else {
            None
        },
        OpView::SetResUid(uid) => if holds(k.caps.effective, CAP_SETUID) {
            let lost = k.secure_bits & SECBIT_NO_SETUID_FIXUP == 0 && uid != 0;
            Some(
                KernelCredentials {
                    uids: (uid, uid, uid),
                    caps: CapabilitySets {
                        effective: if lost {
                            0
                        } else {
                            k.caps.effective
                        },
                        permitted: if lost && !k.keep_caps {
                            0
                        } else {
                            k.caps.permitted
                        },
                        inheritable: k.caps.inheritable,
                    },
                    ..k
                },
            )
        } else {
            None
        },
        OpView::SetNoNewPrivs => Some(KernelCredentials { no_new_privs: true, ..k }),
    }
}

/// What the kernel makes of operations, one after the other.
pub open spec fn kernel_run(k: KernelCredentials, ops: Seq<OpView>) -> Option<KernelCredentials>
    decreases ops.len(),
{
    if ops.len() == 0 {
        Some(k)
    } else {
        match kernel_run(k, ops.drop_last()) {
            None => None,
            Some(k) => kernel_apply(k, ops.last()),
        }
    }
}

proof fn lemma_run_concat(k: KernelCredentials, a: Seq<OpView>, b: Seq<OpView>)
    ensures
        kernel_run(k, a + b) == (match kernel_run(k, a) {
            None => None,
            Some(m) => kernel_run(m, b),
        }),
    decreases b.len(),
{
    if b.len() == 0 {
        assert(a + b =~= a);
    } else {
        lemma_run_concat(k, a, b.drop_last());
        assert((a + b).drop_last() =~= a + b.drop_last());
        assert((a + b).last() == b.last());
    }
}

proof fn lemma_run_one(k: KernelCredentials, op: OpView)
    ensures
        kernel_run(k, seq![op]) == kernel_apply(k, op),
{
    assert(seq![op].drop_last() =~= Seq::<OpView>::empty());
    reveal_with_fuel(kernel_run, 2);
}

proof fn lemma_run_two(k: KernelCredentials, a: OpView, b: OpView)
    ensures
        kernel_run(k, seq![a, b]) == (match kernel_apply(k, a) {
            None => None,
            Some(m) => kernel_apply(m, b),
        }),
{
    assert(seq![a, b] =~= seq![a] + seq![b]);
    lemma_run_concat(k, seq![a], seq![b]);
    lemma_run_one(k, a);
    if let Some(m) = kernel_apply(k, a) {
        lemma_run_one(m, b);
    }
}

proof fn lemma_run_three(k: KernelCredentials, a: OpView, b: OpView, c: OpView)
    ensures
        kernel_run(k, seq![a, b, c]) == (match kernel_apply(k, a) {
            None => None,
            Some(m) => match kernel_apply(m, b) {
                None => None,
                Some(n) => kernel_apply(n, c),
            },
        }),
{
    assert(seq![a, b, c] =~= seq![a, b] + seq![c]);
    lemma_run_concat(k, seq![a, b], seq![c]);
    lemma_run_two(k, a, b);
    if let Some(m) = kernel_apply(k, a) {
        if let Some(n) = kernel_apply(m, b) {
            lemma_run_one(n, c);
        }
    }
}

/// Whether the kernel's credentials are those that the plan was made for.
pub open spec fn described_by(k: KernelCredentials, current: Credentials) -> bool {
    &&& k.caps == current.caps
    &&& k.uids == (current.uids@[0], current.uids@[1], current.uids@[2])
    &&& holds(k.caps.permitted, k.caps.effective)
    &&& k.secure_bits & SECBIT_KEEP_CAPS_LOCKED == 0
}

proof fn lemma_raising(k: KernelCredentials, needed: u64)
    requires
        holds(k.caps.permitted, k.caps.effective),
        holds(k.caps.permitted, needed),
    ensures
        kernel_run(k, raising(k.caps, needed)) matches Some(m) && m == (KernelCredentials {
            caps: m.caps,
            ..k
        }) && m.caps.permitted == k.caps.permitted && holds(m.caps.effective, needed),
{
    let e = k.caps.effective;
    let p = k.caps.permitted;
    let sets = CapabilitySets { effective: e | needed, permitted: p, inheritable: 0 };
    assert((p & (e | needed)) == (e | needed) && (e | needed) & needed == needed && p & p == p)
        by (bit_vector)
        requires
            p & e == e,
            p & needed == needed,
    ;
    lemma_run_one(k, OpView::SetCaps(sets));
    if holds(e, needed) {
        assert(kernel_run(k, Seq::<OpView>::empty()) == Some(k));
    }
}

/// Carried out by the kernel on the credentials it was made for, a plan is
/// never refused for lack of privilege. Afterwards exactly the kept
/// capabilities are effective and permitted, none is inheritable or ambient,
/// none can be gained, none beyond the kept ones is in the bounding set if the
/// process could change it, and a switch has changed every ID.
pub proof fn law_plan_reaches_its_goal(
    current: Credentials,
    request: RequestView,
    k: KernelCredentials,
)
    requires
        refusal(current, request) is None,
        described_by(k, current),
    ensures
        ({
            let p = planned(current, request);
            let user = switch_to(current, request);
            kernel_run(k, p.ops) matches Some(end) && {
                &&& end.caps == (CapabilitySets {
                    effective: p.final_caps,
                    permitted: p.final_caps,
                    inheritable: 0,
                })
                &&& end.ambient == 0
                &&& end.no_new_privs
                &&& holds(current.caps.permitted, CAP_SETPCAP) ==> end.bounding & !p.final_caps == 0
                &&& user is Some ==> end.uids == (p.final_uid, p.final_uid, p.final_uid)
                    && p.final_uid != 0
                &&& user is Some ==> p.final_groups == Some((end.gid->0, end.groups->0))
                    && end.gid is Some && end.groups is Some
                &&& user is None ==> end.uids == k.uids && end.gid == k.gid && end.groups
                    == k.groups
            }
        }),
{
    let keep = request.goal.kept();
    let user = switch_to(current, request);
    let p = current.caps.permitted;
    let setpcap = holds(p, CAP_SETPCAP);
    let needed = needed_caps(setpcap, user is Some);
    assert(p & needed == needed && (setpcap ==> needed & 0x100 == 0x100) && (user is Some ==> needed
        & 0x80 == 0x80 && needed & 0x40 == 0x40)) by {
        if setpcap && user is Some {
            assert(p & (0x100u64 | (0x80u64 | 0x40u64)) == (0x100u64 | (0x80u64 | 0x40u64)) && (
            0x100u64 | (0x80u64 | 0x40u64)) & 0x100 == 0x100 && (0x100u64 | (0x80u64 | 0x40u64))
                & 0x80 == 0x80 && (0x100u64 | (0x80u64 | 0x40u64)) & 0x40 == 0x40) by (bit_vector)
                requires
                    p & 0x100 == 0x100,
                    p & 0x80 == 0x80,
                    p & 0x40 == 0x40,
            ;
        } else if user is Some {
            assert(p & (0u64 | (0x80u64 | 0x40u64)) == (0u64 | (0x80u64 | 0x40u64)) && (0u64 | (
            0x80u64 | 0x40u64)) & 0x80 == 0x80 && (0u64 | (0x80u64 | 0x40u64)) & 0x40 == 0x40)
                by (bit_vector)
                requires
                    p & 0x80 == 0x80,
                    p & 0x40 == 0x40,
            ;
        } else {
            assert(p & 0 == 0 && 0x100u64 & 0x100 == 0x100) by (bit_vector);
        }
    }
    let head = seq![OpView::ClearAmbient];
    let up = raising(current.caps, needed);
    let lock = locking(setpcap, keep);
    let change = switching(user, setpcap);
    let tail = ending(keep);
    lemma_run_one(k, OpView::ClearAmbient);
    let k1 = KernelCredentials { ambient: 0, ..k };
    lemma_run_concat(k, head, up);
    lemma_raising(k1, needed);
    let k2 = kernel_run(k1, up)->0;
    assert(kernel_run(k, head + up) == Some(k2));
    let e2 = k2.caps.effective;
    assert((needed & 0x100 == 0x100 ==> e2 & 0x100 == 0x100) && (needed & 0x80 == 0x80 ==> e2 & 0x80
        == 0x80) && (needed & 0x40 == 0x40 ==> e2 & 0x40 == 0x40)) by (bit_vector)
        requires
            e2 & needed == needed,
    ;
    lemma_run_concat(k, head + up, lock);
    if setpcap {
        lemma_run_two(
            k2,
            OpView::DropBoundingExcept(keep),
            OpView::SetSecureBits(LOCKED_SECURE_BITS),
        );
    } else {
        assert(kernel_run(k2, lock) == Some(k2));
    }
    let k3 = kernel_run(k2, lock)->0;
    assert(kernel_run(k, head + up + lock) == Some(k3));
    assert(0xefu32 & 0x04 != 0) by (bit_vector);
    lemma_run_concat(k, head + up + lock, change);
    match user {
        None => {
            assert(kernel_run(k3, change) == Some(k3));
        },
        Some(u) => {
            let a = OpView::SetGroups(u.all_groups());
            let b = OpView::SetResGid(u.gid);
            let c = OpView::SetResUid(u.uid);
            if setpcap {
                lemma_run_three(k3, a, b, c);
            } else {
                let on = OpView::SetKeepCaps(true);
                let off = OpView::SetKeepCaps(false);
                lemma_run_one(k3, on);
                let k3a = kernel_apply(k3, on)->0;
                lemma_run_concat(k3, seq![on], seq![a, b, c]);
                lemma_run_three(k3a, a, b, c);
                let k3b = kernel_run(k3a, seq![a, b, c])->0;
                lemma_run_concat(k3, seq![on] + seq![a, b, c], seq![off]);
                lemma_run_one(k3b, off);
            }
        },
    }
    let k4 = kernel_run(k3, change)->0;
    assert(kernel_run(k, head + up + lock + change) == Some(k4));
    assert(k4.caps.permitted == p);
    lemma_run_concat(k, head + up + lock + change, tail);
    assert(keep & keep == keep) by (bit_vector);
    assert(p & 0 == 0) by (bit_vector);
    lemma_run_two(
        k4,
        OpView::SetCaps(CapabilitySets { effective: keep, permitted: keep, inheritable: 0 }),
        OpView::SetNoNewPrivs,
    );
    let b0 = k.bounding;
    assert((b0 & keep) & !keep == 0) by (bit_vector);
}

/// A request is refused exactly where a needed capability is not permitted, or
/// a process that is root, by any of its user IDs, could not leave root: it
/// keeps its capability without a user to switch to and without leave to stay,
/// or the user is root itself, or it may not change its IDs.
pub proof fn law_refusals_have_a_cause(current: Credentials, request: RequestView)
    ensures
        ({
            let permitted = current.caps.permitted;
            let root = current.uids@[0] == 0 || current.uids@[1] == 0 || current.uids@[2] == 0;
            let keeps = request.goal == Goal::KeepSysAdmin;
            refusal(current, request) is Some <==> {
                ||| keeps && permitted & 0x20_0000 != 0x20_0000
                ||| root && keeps && request.user is None && !request.allow_root
                ||| root && (request.user matches Some(user) && (user.uid == 0 || permitted & 0x80
                    != 0x80 || permitted & 0x40 != 0x40))
            }
        }),
{
}

/// Each refusal says its cause, the missing capability first.
pub proof fn law_refusals_name_their_cause(current: Credentials, request: RequestView)
    ensures
        refusal(current, request) matches Some(e) ==> match e {
            PlanErrorView::MissingSysAdmin => request.goal == Goal::KeepSysAdmin
                && current.caps.permitted & 0x20_0000 != 0x20_0000,
            PlanErrorView::RootWithoutUser => request.user is None && !request.allow_root,
            PlanErrorView::ServiceUserIsRoot(name) => request.user matches Some(user) && user.uid
                == 0 && user.name == name,
            PlanErrorView::CannotSwitchUser { user: name, missing } => (request.user matches Some(
                user,
            ) && user.name == name) && ((missing == "CAP_SETUID"@ && current.caps.permitted & 0x80
                != 0x80) || (missing == "CAP_SETGID"@ && current.caps.permitted & 0x40 != 0x40)),
        },
{
}

/// A process that is root, by any of its user IDs, ends as the service user if
/// one is given, in the user's own group and in exactly the user's groups and
/// that one; any other process keeps its IDs. It keeps the one capability that
/// was asked for, or none.
pub proof fn law_plans_promise_what_was_asked(current: Credentials, request: RequestView, g: u32)
    ensures
        ({
            let p = planned(current, request);
            let root = current.uids@[0] == 0 || current.uids@[1] == 0 || current.uids@[2] == 0;
            &&& request.goal == Goal::KeepSysAdmin ==> p.final_caps == 0x20_0000
            &&& request.goal == Goal::DropAll ==> p.final_caps == 0
            &&& root ==> (request.user matches Some(user) ==> p.final_uid == user.uid && (
            p.final_groups matches Some((gid, groups)) && gid == user.gid && (groups.contains(g)
                <==> user.groups.contains(g) || g == user.gid)))
            &&& !root || request.user is None ==> p.final_uid == current.uids@[1]
                && p.final_groups is None
        }),
{
    if request.user is Some {
        let user = request.user->0;
        let all = seq![user.gid] + user.groups;
        assert(all[0] == user.gid);
        if user.groups.contains(g) {
            let i = choose|i: int| 0 <= i < user.groups.len() && user.groups[i] == g;
            assert(all[i + 1] == g);
        }
        if all.contains(g) && g != user.gid {
            let i = choose|i: int| 0 <= i < all.len() && all[i] == g;
            assert(user.groups[i - 1] == g);
        }
    }
}

/// It is worth a warning that a process stays root, and that a configured user
/// is not the one that an unprivileged process runs as; nothing else is.
pub proof fn law_warnings_have_a_cause(current: Credentials, request: RequestView)
    ensures
        ({
            let warnings = planned(current, request).warnings;
            let root = current.uids@[0] == 0 || current.uids@[1] == 0 || current.uids@[2] == 0;
            &&& root && request.user is None && request.goal == Goal::KeepSysAdmin ==> warnings
                == seq![WarningView::RunningAsRoot]
            &&& !root ==> (request.user matches Some(user) ==> user.uid != current.uids@[1]
                ==> warnings == seq![
                WarningView::UserNotApplied { user: user.name, effective_uid: current.uids@[1] },
            ])
            &&& root && (request.user is Some || request.goal == Goal::DropAll) ==> warnings.len()
                == 0
            &&& !root && request.user is None ==> warnings.len() == 0
            &&& !root ==> (request.user matches Some(user) ==> user.uid == current.uids@[1]
                ==> warnings.len() == 0)
        }),
{
}

} // verus!
