//! Kernel identity of a mount, used to prove Byssus created it.
use vstd::prelude::*;

verus! {

/// Device and inode of a directory.
#[derive(Debug, Clone, Copy, PartialEq, Eq, PartialOrd, Ord, Hash, Structural)]
pub struct DevIno {
    /// Device major number.
    pub dev_major: u32,
    /// Device minor number.
    pub dev_minor: u32,
    /// Inode number.
    pub ino: u64,
}

/// The identity of an attached mount, as read with `statx` on a descriptor
/// referring to its root.
#[derive(Debug, Clone, Copy, PartialEq, Eq, Hash)]
pub struct MountIdentity {
    /// `STATX_MNT_ID`: unique while mounted; may be reused afterwards.
    pub mnt_id: u64,
    /// `STATX_MNT_ID_UNIQUE`: never reused. `None` if the kernel does not
    /// support it.
    pub mnt_id_unique: Option<u64>,
    /// Device and inode of the mount's root directory. For a bind mount these
    /// equal the source directory's.
    pub root: DevIno,
}

impl View for MountIdentity {
    type V = MountIdentity;

    open spec fn view(&self) -> MountIdentity {
        *self
    }
}

/// Whether an observed mount is the mount that was recorded: the root device
/// and inode agree, and so do the unique mount IDs where both carry one, else
/// the reusable mount IDs.
pub open spec fn is_recorded_mount(observed: MountIdentity, recorded: MountIdentity) -> bool {
    &&& observed.root == recorded.root
    &&& if observed.mnt_id_unique is Some && recorded.mnt_id_unique is Some {
        observed.mnt_id_unique == recorded.mnt_id_unique
    } else {
        observed.mnt_id == recorded.mnt_id
    }
}

impl MountIdentity {
    /// Whether an observed mount (`self`) is the mount described by a
    /// `recorded` identity.
    ///
    /// When both sides carry a unique mount ID it is authoritative (together
    /// with the root device and inode). Otherwise the reusable mount ID, root
    /// device and root inode must all match.
    pub fn matches(&self, recorded: &Self) -> (r: bool)
        ensures
            r == is_recorded_mount(*self, *recorded),
    {
        if self.root != recorded.root {
            return false;
        }
        match (self.mnt_id_unique, recorded.mnt_id_unique) {
            (Some(observed), Some(expected)) => observed == expected,
            _ => self.mnt_id == recorded.mnt_id,
        }
    }

    /// Whether two identities are the same in every field.
    pub fn same(&self, other: &Self) -> (r: bool)
        ensures
            r == (*self == *other),
    {
        let unique = match (self.mnt_id_unique, other.mnt_id_unique) {
            (None, None) => true,
            (Some(a), Some(b)) => a == b,
            _ => false,
        };
        self.mnt_id == other.mnt_id && unique && self.root == other.root
    }
}

/// A mount is itself, and being the recorded mount does not depend on which
/// side was observed.
pub proof fn law_identity_is_symmetric(a: MountIdentity, b: MountIdentity)
    ensures
        is_recorded_mount(a, a),
        is_recorded_mount(a, b) == is_recorded_mount(b, a),
{
}

/// A mount whose root is another directory, or that carries another unique
/// mount ID, is never taken for the recorded one.
pub proof fn law_other_mounts_are_not_recorded(observed: MountIdentity, recorded: MountIdentity)
    ensures
        observed.root != recorded.root ==> !is_recorded_mount(observed, recorded),
        observed.mnt_id_unique is Some && recorded.mnt_id_unique is Some && observed.mnt_id_unique
            != recorded.mnt_id_unique ==> !is_recorded_mount(observed, recorded),
{
}

/// Two mounts with the same root and the same unique mount ID are one, even if
/// the reusable IDs differ; where one of them carries no unique ID, the
/// reusable one decides.
pub proof fn law_mount_ids_decide(observed: MountIdentity, recorded: MountIdentity)
    requires
        observed.root == recorded.root,
    ensures
        observed.mnt_id_unique matches Some(a) ==> recorded.mnt_id_unique matches Some(b) ==> (
        is_recorded_mount(observed, recorded) <==> a == b),
        observed.mnt_id_unique is None || recorded.mnt_id_unique is None ==> (is_recorded_mount(
            observed,
            recorded,
        ) <==> observed.mnt_id == recorded.mnt_id),
{
}

} // verus!
