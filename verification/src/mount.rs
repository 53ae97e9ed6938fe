//! Mount attributes, and what follows from inspecting a mount.
//!
//! The program makes the system calls. What their results mean is decided
//! here.
use vstd::prelude::*;
use vstd::string::*;

use crate::config::MountAttrs;
use crate::identity::{is_recorded_mount, DevIno, MountIdentity};
use crate::reconcile::plan::{ObservedAttrs, TargetState, TargetView};
use crate::sys::{MOUNT_ATTR_NODEV, MOUNT_ATTR_NOEXEC, MOUNT_ATTR_NOSUID, MOUNT_ATTR_NOSYMFOLLOW, MOUNT_ATTR_RDONLY, STATX_ATTR_MOUNT_ROOT, STATX_MNT_ID, STATX_MNT_ID_UNIQUE, ST_NODEV, ST_NOEXEC, ST_NOSUID, ST_NOSYMFOLLOW, ST_RDONLY};
use crate::text::{decimal, push_decimal};

verus! {

/// A bit, if it is wanted.
pub open spec fn bit_if(wanted: bool, bit: u64) -> u64 {
    if wanted {
        bit
    } else {
        0
    }
}

/// The attribute bits of a configuration.
pub open spec fn wanted_bits(attrs: MountAttrs) -> u64 {
    MOUNT_ATTR_NOSUID | MOUNT_ATTR_NODEV | bit_if(attrs.read_only, MOUNT_ATTR_RDONLY) | bit_if(
        attrs.noexec,
        MOUNT_ATTR_NOEXEC,
    ) | bit_if(attrs.nosymfollow, MOUNT_ATTR_NOSYMFOLLOW)
}

/// Attribute bits to set for the given configuration. `nosuid` and `nodev`
/// are always included.
pub fn attr_bits(attrs: &MountAttrs) -> (r: u64)
    ensures
        r == wanted_bits(*attrs),
{
    let read_only: u64 = if attrs.read_only {
        MOUNT_ATTR_RDONLY
    } else {
        0
    };
    let noexec: u64 = if attrs.noexec {
        MOUNT_ATTR_NOEXEC
    } else {
        0
    };
    let nosymfollow: u64 = if attrs.nosymfollow {
        MOUNT_ATTR_NOSYMFOLLOW
    } else {
        0
    };
    MOUNT_ATTR_NOSUID | MOUNT_ATTR_NODEV | read_only | noexec | nosymfollow
}

/// `nosuid` and `nodev` are set on every mount, whatever is configured, and
/// each other restriction exactly where it is configured.
pub proof fn law_attr_bits(attrs: MountAttrs)
    ensures
        wanted_bits(attrs) & MOUNT_ATTR_NOSUID == MOUNT_ATTR_NOSUID,
        wanted_bits(attrs) & MOUNT_ATTR_NODEV == MOUNT_ATTR_NODEV,
        (wanted_bits(attrs) & MOUNT_ATTR_RDONLY != 0) == attrs.read_only,
        (wanted_bits(attrs) & MOUNT_ATTR_NOEXEC != 0) == attrs.noexec,
        (wanted_bits(attrs) & MOUNT_ATTR_NOSYMFOLLOW != 0) == attrs.nosymfollow,
{
    let r = bit_if(attrs.read_only, MOUNT_ATTR_RDONLY);
    let e = bit_if(attrs.noexec, MOUNT_ATTR_NOEXEC);
    let s = bit_if(attrs.nosymfollow, MOUNT_ATTR_NOSYMFOLLOW);
    let all = 0x2u64 | 0x4u64 | r | e | s;
    assert(all & 0x2 == 0x2 && all & 0x4 == 0x4 && (all & 0x1 != 0) == (r == 0x1) && (all & 0x8
        != 0) == (e == 0x8) && (all & 0x20_0000 != 0) == (s == 0x20_0000)) by (bit_vector)
        requires
            all == 0x2u64 | 0x4u64 | r | e | s,
            r == 0 || r == 0x1,
            e == 0 || e == 0x8,
            s == 0 || s == 0x20_0000,
    ;
}

/// The parts of a `statx` result that identify a mount.
#[derive(Debug, Clone, Copy, PartialEq, Eq, Structural)]
pub struct StatxIdentity {
    /// Which fields the kernel filled in.
    pub mask: u32,
    /// Mount ID.
    pub mnt_id: u64,
    /// Device and inode.
    pub root: DevIno,
}

/// The mount ID of a second `statx` that asked for the unique one.
#[derive(Debug, Clone, Copy, PartialEq, Eq, Structural)]
pub struct StatxUnique {
    /// Which fields the kernel filled in.
    pub mask: u32,
    /// Unique mount ID.
    pub mnt_id: u64,
}

/// The identity that `statx` gives, if it reports a mount ID at all. A unique
/// mount ID counts only where the kernel filled it in.
pub open spec fn statx_identity(st: StatxIdentity, unique: Option<StatxUnique>) -> Option<
    MountIdentity,
> {
    if st.mask & STATX_MNT_ID == 0 {
        None
    } else {
        Some(
            MountIdentity {
                mnt_id: st.mnt_id,
                mnt_id_unique: match unique {
                    Some(u) if u.mask & STATX_MNT_ID_UNIQUE != 0 => Some(u.mnt_id),
                    _ => None,
                },
                root: st.root,
            },
        )
    }
}

/// Text where the kernel reports no mount ID.
pub const NO_MOUNT_ID: &'static str = "kernel did not report STATX_MNT_ID";

/// Text where the kernel does not say whether a directory is a mount root.
pub const NO_MOUNT_ROOT: &'static str = "kernel did not report STATX_ATTR_MOUNT_ROOT";

/// The identity of a mount, from `statx` on its root.
pub fn identity_of(st: &StatxIdentity, unique: Option<StatxUnique>) -> (r: Result<
    MountIdentity,
    &'static str,
>)
    ensures
        match r {
            Ok(id) => statx_identity(*st, unique) == Some(id),
            Err(e) => statx_identity(*st, unique) is None && e@ == NO_MOUNT_ID@,
        },
{
    if st.mask & STATX_MNT_ID == 0 {
        return Err(NO_MOUNT_ID);
    }
    let mnt_id_unique = match unique {
        Some(u) => if u.mask & STATX_MNT_ID_UNIQUE != 0 {
            Some(u.mnt_id)
        } else {
            None
        },
        None => None,
    };
    Ok(MountIdentity { mnt_id: st.mnt_id, mnt_id_unique, root: st.root })
}

/// Whether a directory is the root of a mount, from the attributes of `statx`
/// and the mask of those the kernel knows.
pub fn is_mount_root(attributes_mask: u64, attributes: u64) -> (r: Result<bool, &'static str>)
    ensures
        match r {
            Ok(root) => attributes_mask & STATX_ATTR_MOUNT_ROOT != 0 && root == (attributes
                & STATX_ATTR_MOUNT_ROOT != 0),
            Err(e) => attributes_mask & STATX_ATTR_MOUNT_ROOT == 0 && e@ == NO_MOUNT_ROOT@,
        },
{
    if attributes_mask & STATX_ATTR_MOUNT_ROOT == 0 {
        Err(NO_MOUNT_ROOT)
    } else {
        Ok(attributes & STATX_ATTR_MOUNT_ROOT != 0)
    }
}

/// The attributes of a mount, from the flags of `statvfs`.
pub fn observed_attrs(flags: u64) -> (r: ObservedAttrs)
    ensures
        r == (ObservedAttrs {
            read_only: flags & ST_RDONLY != 0,
            nosuid: flags & ST_NOSUID != 0,
            nodev: flags & ST_NODEV != 0,
            noexec: flags & ST_NOEXEC != 0,
            nosymfollow: flags & ST_NOSYMFOLLOW != 0,
        }),
{
    ObservedAttrs {
        read_only: flags & ST_RDONLY != 0,
        nosuid: flags & ST_NOSUID != 0,
        nodev: flags & ST_NODEV != 0,
        noexec: flags & ST_NOEXEC != 0,
        nosymfollow: flags & ST_NOSYMFOLLOW != 0,
    }
}

/// What came of opening a target.
#[derive(Debug)]
pub enum OpenOutcome {
    /// There is no such directory.
    Missing,
    /// It could not be opened.
    Failed(String),
    /// It was opened; whether it is a mount root could not be learned, or its
    /// identity could not.
    Unknown(String),
    /// It was opened, and is no mount root.
    Plain,
    /// It was opened, and is the root of this mount.
    Root {
        /// Identity.
        identity: MountIdentity,
        /// Attributes, if they could be read.
        attrs: Option<ObservedAttrs>,
    },
}

/// What is at a target: one that does not exist has nothing mounted on it.
pub open spec fn inspection(outcome: OpenOutcome) -> TargetView {
    match outcome {
        OpenOutcome::Missing => TargetView::NotMounted,
        OpenOutcome::Failed(e) => TargetView::Unavailable(e@),
        OpenOutcome::Unknown(e) => TargetView::Unavailable(e@),
        OpenOutcome::Plain => TargetView::NotMounted,
        OpenOutcome::Root { identity, attrs } => TargetView::Mounted { identity, attrs },
    }
}

/// What is at a target, from what came of opening it.
pub fn inspect(outcome: OpenOutcome) -> (r: TargetState)
    ensures
        r@ == inspection(outcome),
{
    match outcome {
        OpenOutcome::Missing => TargetState::NotMounted,
        OpenOutcome::Failed(e) => TargetState::Unavailable(e),
        OpenOutcome::Unknown(e) => TargetState::Unavailable(e),
        OpenOutcome::Plain => TargetState::NotMounted,
        OpenOutcome::Root { identity, attrs } => TargetState::Mounted { identity, attrs },
    }
}

/// Why a verified operation on an existing mount did not happen.
#[derive(Debug, PartialEq, Eq)]
pub enum VerifiedOpError {
    /// Nothing is mounted at the target.
    NotMounted,
    /// A different mount is at the target.
    IdentityMismatch {
        /// Mount ID found.
        found: u64,
    },
    /// A system call failed.
    Io(String),
}

/// Why a verified operation did not happen.
pub enum VerifiedOpErrorView {
    /// Nothing is mounted at the target.
    NotMounted,
    /// A different mount is at the target.
    IdentityMismatch {
        /// Mount ID found.
        found: u64,
    },
    /// A system call failed.
    Io(Seq<char>),
}

impl View for VerifiedOpError {
    type V = VerifiedOpErrorView;

    open spec fn view(&self) -> VerifiedOpErrorView {
        match self {
            VerifiedOpError::NotMounted => VerifiedOpErrorView::NotMounted,
            VerifiedOpError::IdentityMismatch { found } => VerifiedOpErrorView::IdentityMismatch {
                found: *found,
            },
            VerifiedOpError::Io(e) => VerifiedOpErrorView::Io(e@),
        }
    }
}

impl VerifiedOpErrorView {
    /// The text of the error.
    pub open spec fn text(self) -> Seq<char> {
        match self {
            VerifiedOpErrorView::NotMounted => "nothing is mounted at the target"@,
            VerifiedOpErrorView::IdentityMismatch { found } =>
                "the mount at the target is not the recorded mount (found mount ID "@ + decimal(
                found as nat,
            ) + ")"@,
            VerifiedOpErrorView::Io(e) => e,
        }
    }
}

impl VerifiedOpError {
    /// Describes the error.
    pub fn message(&self) -> (r: String)
        ensures
            r@ == self@.text(),
    {
        match self {
            VerifiedOpError::NotMounted => "nothing is mounted at the target".to_owned(),
            VerifiedOpError::IdentityMismatch { found } => {
                let mut out = String::new();
                out.append("the mount at the target is not the recorded mount (found mount ID ");
                push_decimal(&mut out, *found);
                out.append(")");
                assert(out@ =~= self@.text());
                out
            },
            VerifiedOpError::Io(e) => e.clone(),
        }
    }
}

/// Whether the mount at an opened target may be operated on: only the recorded
/// mount may.
pub open spec fn may_operate(found: TargetView, expected: MountIdentity) -> Result<
    (),
    VerifiedOpErrorView,
> {
    match found {
        TargetView::Mounted { identity, attrs } => if is_recorded_mount(identity, expected) {
            Ok(())
        } else {
            Err(VerifiedOpErrorView::IdentityMismatch { found: identity.mnt_id })
        },
        _ => Err(VerifiedOpErrorView::NotMounted),
    }
}

/// Decides, on a pinned target, whether the mount there is the recorded one.
pub fn verify_target(found: &TargetState, expected: &MountIdentity) -> (r: Result<
    (),
    VerifiedOpError,
>)
    ensures
        match r {
            Ok(_) => may_operate(found@, *expected) is Ok,
            Err(e) => may_operate(found@, *expected) == Err::<(), VerifiedOpErrorView>(e@),
        },
{
    match found {
        TargetState::Mounted { identity, attrs: _ } => if identity.matches(expected) {
            Ok(())
        } else {
            Err(VerifiedOpError::IdentityMismatch { found: identity.mnt_id })
        },
        _ => Err(VerifiedOpError::NotMounted),
    }
}

// Laws.

/// An identity is read only where the kernel reports a mount ID; it is that
/// ID, and the device and inode that came with it. The unique ID is the one of
/// the second call, if the kernel filled that one in.
pub proof fn law_identities_are_as_reported(st: StatxIdentity, unique: Option<StatxUnique>)
    ensures
        statx_identity(st, unique) is None <==> st.mask & 0x1000 == 0,
        statx_identity(st, unique) matches Some(id) ==> {
            &&& id.mnt_id == st.mnt_id
            &&& id.root.dev_major == st.root.dev_major
            &&& id.root.dev_minor == st.root.dev_minor
            &&& id.root.ino == st.root.ino
            &&& unique matches Some(u) ==> u.mask & 0x4000 != 0 ==> id.mnt_id_unique == Some(
                u.mnt_id,
            )
            &&& unique matches Some(u) ==> u.mask & 0x4000 == 0 ==> id.mnt_id_unique is None
            &&& unique is None ==> id.mnt_id_unique is None
        },
{
}

/// A target is taken for free only where there is no directory or one that is
/// no mount root, and for mounted only where a mount root was seen; whatever
/// could not be learned leaves it unknown.
pub proof fn law_unknown_targets_are_not_free(outcome: OpenOutcome)
    ensures
        inspection(outcome) is NotMounted <==> outcome is Missing || outcome is Plain,
        inspection(outcome) matches TargetView::Mounted { identity, attrs } ==> outcome
            == (OpenOutcome::Root { identity, attrs }),
        outcome is Root ==> inspection(outcome) is Mounted,
        outcome matches OpenOutcome::Failed(e) ==> inspection(outcome) == TargetView::Unavailable(
            e@,
        ),
        outcome matches OpenOutcome::Unknown(e) ==> inspection(outcome) == TargetView::Unavailable(
            e@,
        ),
{
}

/// Only a mount with the recorded root, and the recorded mount ID, is operated
/// on: the unique ID where both are known, else the reusable one.
pub proof fn law_only_recorded_mounts_are_operated_on(found: TargetView, expected: MountIdentity)
    ensures
        may_operate(found, expected) is Ok <==> (found matches TargetView::Mounted {
            identity,
            attrs,
        } && identity.root == expected.root && match (
            identity.mnt_id_unique,
            expected.mnt_id_unique,
        ) {
            (Some(a), Some(b)) => a == b,
            _ => identity.mnt_id == expected.mnt_id,
        }),
        !(found is Mounted) ==> may_operate(found, expected) == Err::<(), VerifiedOpErrorView>(
            VerifiedOpErrorView::NotMounted,
        ),
        found matches TargetView::Mounted { identity, attrs } ==> may_operate(
            found,
            expected,
        ) is Err ==> may_operate(found, expected) == Err::<(), VerifiedOpErrorView>(
            VerifiedOpErrorView::IdentityMismatch { found: identity.mnt_id },
        ),
{
}

} // verus!
