//! Mount identities.
use byssus::identity::{DevIno, MountIdentity};

const ROOT: DevIno = DevIno {
    dev_major: 8,
    dev_minor: 1,
    ino: 42,
};

fn id(mnt_id: u64, unique: Option<u64>, root: DevIno) -> MountIdentity {
    MountIdentity {
        mnt_id,
        mnt_id_unique: unique,
        root,
    }
}

#[test]
fn identical_matches() {
    assert!(id(5, Some(100), ROOT).matches(&id(5, Some(100), ROOT)));
    assert!(id(5, None, ROOT).matches(&id(5, None, ROOT)));
}

#[test]
fn unique_id_is_authoritative_when_both_present() {
    // Reused short ID but different unique ID: a different mount.
    assert!(!id(5, Some(101), ROOT).matches(&id(5, Some(100), ROOT)));
    // Short IDs differ but unique IDs match: cannot happen for one mount,
    // but the unique ID decides.
    assert!(id(6, Some(100), ROOT).matches(&id(5, Some(100), ROOT)));
}

#[test]
fn falls_back_to_short_id_when_either_lacks_unique() {
    assert!(id(5, None, ROOT).matches(&id(5, Some(100), ROOT)));
    assert!(id(5, Some(100), ROOT).matches(&id(5, None, ROOT)));
    assert!(!id(6, None, ROOT).matches(&id(5, Some(100), ROOT)));
}

#[test]
fn root_must_match() {
    let other_ino = DevIno { ino: 43, ..ROOT };
    let other_dev = DevIno {
        dev_minor: 2,
        ..ROOT
    };
    assert!(!id(5, Some(100), other_ino).matches(&id(5, Some(100), ROOT)));
    assert!(!id(5, None, other_dev).matches(&id(5, None, ROOT)));
}

#[test]
fn matching_is_symmetric() {
    let ids = [
        id(5, Some(100), ROOT),
        id(5, None, ROOT),
        id(6, Some(100), ROOT),
        id(5, Some(100), DevIno { ino: 43, ..ROOT }),
    ];
    for a in &ids {
        for b in &ids {
            assert_eq!(a.matches(b), b.matches(a), "{a:?} {b:?}");
        }
    }
}
