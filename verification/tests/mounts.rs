//! Mount tables, attributes, kernel features and propagation.
use byssus::config::MountAttrs;
use byssus::identity::{DevIno, MountIdentity};
use byssus::mount::{attr_bits, inspect, observed_attrs, verify_target, OpenOutcome};
use byssus::mountinfo::{unescape, MountTable, Propagation};
use byssus::probe::{
    check_procfs, classify, missing_features_hint, seccomp_filter_active, Feature, KernelFeatures,
    PropagationCheck,
};
use byssus::reconcile::plan::TargetState;
use byssus::sys;
use byssus::sys::MountAttr;

const SAMPLE: &str = "\
22 1 259:2 / / rw,relatime shared:1 - ext4 /dev/nvme0n1p2 rw,errors=remount-ro
23 22 0:21 / /proc rw,nosuid,nodev,noexec,relatime shared:12 - proc proc rw
36 35 98:0 /mnt1 /mnt2 rw,noatime master:1 - ext3 /dev/root rw,errors=continue
40 22 259:2 /srv/with\\040space /srv/view/a\\011b ro,nosuid,nodev,noexec,relatime shared:5 master:3 - ext4 /dev/nvme0n1p2 rw
41 22 0:50 / /private rw,relatime - tmpfs my\\134source rw,size=1024k
42 22 0:51 / /unbind rw unbindable - tmpfs tmpfs rw
43 22 0:52 / /propfrom rw master:7 propagate_from:2 - tmpfs tmpfs rw
";

#[test]
fn parses_sample() {
    let table = MountTable::parse(SAMPLE.as_bytes()).unwrap();
    assert_eq!(table.mounts.len(), 7);

    let root = table.by_id(22).unwrap();
    assert_eq!(root.parent_id, 1);
    assert_eq!((root.major, root.minor), (259, 2));
    assert_eq!(root.mount_point, b"/");
    assert_eq!(root.propagation, Propagation::Shared { peer_group: 1 });
    assert_eq!(root.fs_type, "ext4");
    assert_eq!(root.source, b"/dev/nvme0n1p2");
    assert_eq!(root.super_options, "rw,errors=remount-ro");

    let slave = table.by_id(36).unwrap();
    assert_eq!(slave.root, b"/mnt1");
    assert_eq!(slave.mount_point, b"/mnt2");
    assert_eq!(slave.propagation, Propagation::Slave { master: 1 });
}

#[test]
fn unescapes_paths_and_source() {
    let table = MountTable::parse(SAMPLE.as_bytes()).unwrap();
    let m = table.by_id(40).unwrap();
    assert_eq!(m.root, b"/srv/with space");
    assert_eq!(m.mount_point, b"/srv/view/a\tb");
    assert!(m.has_mount_option("ro"));
    assert!(m.has_mount_option("noexec"));
    assert!(!m.has_mount_option("no"));
    assert_eq!(
        m.propagation,
        Propagation::SharedAndSlave {
            peer_group: 5,
            master: 3
        }
    );
    assert_eq!(table.by_id(41).unwrap().source, b"my\\source");
}

#[test]
fn propagation_variants() {
    let table = MountTable::parse(SAMPLE.as_bytes()).unwrap();
    assert_eq!(table.by_id(41).unwrap().propagation, Propagation::Private);
    assert_eq!(
        table.by_id(42).unwrap().propagation,
        Propagation::Unbindable
    );
    let m = table.by_id(43).unwrap();
    assert_eq!(m.propagation, Propagation::Slave { master: 7 });
    assert_eq!(m.optional_fields, ["master:7", "propagate_from:2"]);
    assert!(table.by_id(999).is_none());
}

#[test]
fn unescape_edge_cases() {
    assert_eq!(unescape(b"plain").unwrap(), b"plain");
    assert_eq!(unescape(b"\\012").unwrap(), b"\n");
    assert_eq!(unescape(b"a\\134\\040").unwrap(), b"a\\ ");
    assert_eq!(unescape(b"\\377").unwrap(), [0xff]);
    assert_eq!(unescape(b"raw\xff").unwrap(), b"raw\xff");
    assert!(unescape(b"\\400").is_err());
    assert!(unescape(b"\\01").is_err());
    assert!(unescape(b"\\").is_err());
    assert!(unescape(b"\\089").is_err());
    assert_eq!(
        unescape(b"it's\\9\xff").unwrap_err(),
        "invalid escape sequence in 'it\\'s\\\\9\\xff'"
    );
}

#[test]
fn rejects_malformed_lines() {
    let cases = [
        (
            "22 1 259:2 / / rw shared:1 ext4 /dev/x rw",
            "missing '-' separator",
        ),
        ("22 1 259:2 / / - ext4 /dev/x rw", "at least 6 fields"),
        ("22 1 259:2 / / rw - ext4 /dev/x", "3 fields after"),
        ("x 1 259:2 / / rw - ext4 /dev/x rw", "invalid mount ID"),
        ("22 1 2592 / / rw - ext4 /dev/x rw", "invalid device number"),
        (
            "22 1 259:2 / / rw shared:x - ext4 /dev/x rw",
            "invalid shared peer group",
        ),
        ("22 1 259:2 /\\9 / rw - ext4 /dev/x rw", "invalid escape"),
    ];
    for (line, expected) in cases {
        let err = MountTable::parse(format!("{SAMPLE}{line}\n").as_bytes()).unwrap_err();
        assert_eq!(err.line, 8, "{line}");
        assert!(err.reason.contains(expected), "{line}: {}", err.reason);
    }
}

#[test]
fn accepts_non_utf8_paths() {
    let line = b"50 22 0:60 / /srv/caf\xe9 rw - tmpfs tmpfs rw\n";
    let table = MountTable::parse(line).unwrap();
    assert_eq!(
        table.mounts[0].mount_point,
        b"/srv/caf\xe9"
    );
}


#[test]
fn attr_bits_always_include_nosuid_nodev() {
    let none = MountAttrs {
        read_only: false,
        noexec: false,
        nosymfollow: false,
    };
    assert_eq!(
        attr_bits(&none),
        sys::MOUNT_ATTR_NOSUID | sys::MOUNT_ATTR_NODEV
    );
    let all = MountAttrs {
        read_only: true,
        noexec: true,
        nosymfollow: true,
    };
    assert_eq!(
        attr_bits(&all),
        sys::MOUNT_ATTR_NOSUID
            | sys::MOUNT_ATTR_NODEV
            | sys::MOUNT_ATTR_RDONLY
            | sys::MOUNT_ATTR_NOEXEC
            | sys::MOUNT_ATTR_NOSYMFOLLOW
    );
}

#[test]
fn mount_attr_has_kernel_layout() {
    assert_eq!(std::mem::size_of::<MountAttr>(), 32);
}

#[test]
fn feature_classification() {
    assert_eq!(Feature::from_probe_error(Some(libc::ENOSYS)), Feature::Missing);
    assert_eq!(Feature::from_probe_error(Some(libc::EINVAL)), Feature::Available);
    assert_eq!(Feature::from_probe_error(Some(libc::EBADF)), Feature::Available);
    assert_eq!(Feature::from_probe_error(Some(libc::EPERM)), Feature::Available);
    assert_eq!(Feature::Available.as_str(), "ok");
}

#[test]
fn missing_feature_hints() {
    assert!(missing_features_hint(false).contains("5.12"));
    assert!(missing_features_hint(true).contains("RestrictSUIDSGID"));
    assert!(seccomp_filter_active("Name:\tx\nSeccomp:\t2\n"));
    assert!(!seccomp_filter_active("Name:\tx\nSeccomp:\t0\n"));
    assert!(!seccomp_filter_active(""));
}

#[test]
fn procfs_is_told_by_its_magic() {
    assert_eq!(check_procfs(0x9fa0), Ok(()));
    assert_eq!(
        check_procfs(0xef53),
        Err("not a procfs filesystem (f_type 0xef53)".to_owned())
    );
}

#[test]
fn propagation_classification() {
    let table = MountTable::parse(
        b"1 0 0:1 / / rw shared:1 - ext4 /dev/a rw\n\
          2 1 0:2 / /p rw - tmpfs t rw\n\
          3 1 0:3 / /s rw master:1 - tmpfs t rw\n\
          4 1 0:4 / /ss rw shared:4 master:1 - tmpfs t rw\n\
          5 1 0:5 / /u rw unbindable - tmpfs t rw\n",
    )
    .unwrap();
    assert_eq!(classify(&table, 1), PropagationCheck::Shared);
    assert_eq!(classify(&table, 2), PropagationCheck::Private);
    assert_eq!(classify(&table, 3), PropagationCheck::SlaveOnly);
    assert_eq!(classify(&table, 4), PropagationCheck::Shared);
    assert_eq!(classify(&table, 5), PropagationCheck::Unbindable);
    assert!(matches!(classify(&table, 9), PropagationCheck::Unknown(_)));
}

#[test]
fn missing_features_are_named() {
    let features = KernelFeatures {
        open_tree: Feature::Available,
        move_mount: Feature::Available,
        openat2: Feature::Missing,
        mount_setattr: Feature::Available,
        statx_mnt_id: Feature::Available,
        statx_mount_root: Feature::Available,
        statx_mnt_id_unique: Feature::Missing,
    };
    assert_eq!(features.missing_required(), [("openat2", Feature::Missing)]);
    assert!(!features.unique_mount_ids());
}

#[test]
fn targets_are_inspected_by_what_opening_them_gave() {
    let identity = MountIdentity {
        mnt_id: 7,
        mnt_id_unique: None,
        root: DevIno { dev_major: 8, dev_minor: 1, ino: 42 },
    };
    assert_eq!(inspect(OpenOutcome::Missing), TargetState::NotMounted);
    assert_eq!(inspect(OpenOutcome::Plain), TargetState::NotMounted);
    assert_eq!(
        inspect(OpenOutcome::Failed("ELOOP".into())),
        TargetState::Unavailable("ELOOP".into())
    );
    let found = inspect(OpenOutcome::Root { identity, attrs: None });
    assert_eq!(found, TargetState::Mounted { identity, attrs: None });
    assert!(verify_target(&found, &identity).is_ok());
    let other = MountIdentity { mnt_id: 8, ..identity };
    assert!(verify_target(&found, &other).is_err());
    assert!(verify_target(&TargetState::NotMounted, &identity).is_err());
}

#[test]
fn mount_flags_are_told_apart() {
    let attrs = observed_attrs(sys::ST_RDONLY | sys::ST_NOEXEC);
    assert!(attrs.read_only && attrs.noexec);
    assert!(!attrs.nosuid && !attrs.nodev && !attrs.nosymfollow);
}
