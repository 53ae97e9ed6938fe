//! Kernel constants, and the structure that `mount_setattr` reads.
use vstd::prelude::*;

verus! {

/// `MOUNT_ATTR_RDONLY`.
pub const MOUNT_ATTR_RDONLY: u64 = 0x0000_0001;

/// `MOUNT_ATTR_NOSUID`.
pub const MOUNT_ATTR_NOSUID: u64 = 0x0000_0002;

/// `MOUNT_ATTR_NODEV`.
pub const MOUNT_ATTR_NODEV: u64 = 0x0000_0004;

/// `MOUNT_ATTR_NOEXEC`.
pub const MOUNT_ATTR_NOEXEC: u64 = 0x0000_0008;

/// `MOUNT_ATTR_NOSYMFOLLOW`.
pub const MOUNT_ATTR_NOSYMFOLLOW: u64 = 0x0020_0000;

/// `STATX_MNT_ID` (Linux 5.8).
pub const STATX_MNT_ID: u32 = 0x0000_1000;

/// `STATX_MNT_ID_UNIQUE` (Linux 6.8).
pub const STATX_MNT_ID_UNIQUE: u32 = 0x0000_4000;

/// `STATX_ATTR_MOUNT_ROOT` (Linux 5.8).
pub const STATX_ATTR_MOUNT_ROOT: u64 = 0x0000_2000;

/// `ST_RDONLY` in `statfs` flags.
pub const ST_RDONLY: u64 = 0x0001;

/// `ST_NOSUID` in `statfs` flags.
pub const ST_NOSUID: u64 = 0x0002;

/// `ST_NODEV` in `statfs` flags.
pub const ST_NODEV: u64 = 0x0004;

/// `ST_NOEXEC` in `statfs` flags.
pub const ST_NOEXEC: u64 = 0x0008;

/// `ST_NOSYMFOLLOW` in `statfs` flags (Linux 5.10).
pub const ST_NOSYMFOLLOW: u64 = 0x2000;

/// `PROC_SUPER_MAGIC`.
pub const PROC_SUPER_MAGIC: u64 = 0x9fa0;

/// The fields of `struct mount_attr` (`MOUNT_ATTR_SIZE_VER0`).
#[derive(Debug, Clone, Copy, PartialEq, Eq, Structural)]
pub struct MountAttr {
    /// Attributes to add.
    pub attr_set: u64,
    /// Attributes to clear.
    pub attr_clr: u64,
    /// Propagation type to change to.
    pub propagation: u64,
    /// User namespace to map through.
    pub userns_fd: u64,
}

impl MountAttr {
    /// Adds attributes, and changes nothing else: attributes are never
    /// cleared.
    pub fn adding(set: u64) -> (r: Self)
        ensures
            r == (MountAttr { attr_set: set, attr_clr: 0, propagation: 0, userns_fd: 0 }),
    {
        MountAttr { attr_set: set, attr_clr: 0, propagation: 0, userns_fd: 0 }
    }
}

} // verus!
