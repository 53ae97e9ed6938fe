//! Membership entries.
use byssus::membership::{classify, EntryKind, Membership, RejectReason};
use byssus::name::{Name, NameError};

#[test]
fn accepts_empty_regular_file() {
    assert_eq!(
        classify(b"libcurl", Ok(EntryKind::Regular { size: 0 })).unwrap(),
        Name::new("libcurl").unwrap()
    );
}

#[test]
fn rejects_non_empty_file() {
    let r = classify(b"libcurl", Ok(EntryKind::Regular { size: 3 })).unwrap_err();
    assert_eq!(r.reason, RejectReason::NotEmpty(3));
    assert_eq!(r.reason.message(), "file is not empty (3 bytes)");
}

#[test]
fn rejects_other_types() {
    for kind in [
        EntryKind::Directory,
        EntryKind::Symlink,
        EntryKind::Fifo,
        EntryKind::Socket,
        EntryKind::CharDevice,
        EntryKind::BlockDevice,
        EntryKind::Unknown,
    ] {
        let r = classify(b"x", Ok(kind)).unwrap_err();
        assert_eq!(r.reason, RejectReason::NotRegularFile(kind));
    }
    let r = classify(b"x", Ok(EntryKind::Symlink)).unwrap_err();
    assert_eq!(r.reason.message(), "not a regular file (symbolic link)");
}

#[test]
fn name_checked_before_type() {
    let r = classify(b".hidden", Ok(EntryKind::Regular { size: 0 })).unwrap_err();
    assert_eq!(r.reason, RejectReason::InvalidName(NameError::LeadingDot));
    assert_eq!(r.display_name, ".hidden");

    let r = classify(b"bad\nname", Err("gone".into())).unwrap_err();
    assert!(matches!(r.reason, RejectReason::InvalidName(_)));
    assert_eq!(r.display_name, "bad\\nname");
}

#[test]
fn inaccessible_entry() {
    let r = classify(b"x", Err("permission denied".into())).unwrap_err();
    assert_eq!(
        r.reason,
        RejectReason::Inaccessible("permission denied".into())
    );
}

#[test]
fn membership_from_entries() {
    let entries: Vec<(&[u8], Result<EntryKind, String>)> = vec![
        (b".", Ok(EntryKind::Directory)),
        (b"..", Ok(EntryKind::Directory)),
        (b"b", Ok(EntryKind::Regular { size: 0 })),
        (b"a", Ok(EntryKind::Regular { size: 0 })),
        (b"link", Ok(EntryKind::Symlink)),
        (b".swp", Ok(EntryKind::Regular { size: 0 })),
        (b"full", Ok(EntryKind::Regular { size: 1 })),
    ];
    let m = Membership::from_entries(entries);
    let names: Vec<_> = (0..m.members.len()).map(|i| m.members.at(i).as_str()).collect();
    assert_eq!(names, ["a", "b"]);
    let rejected: Vec<_> = m.rejected.iter().map(|r| r.display_name.as_str()).collect();
    assert_eq!(rejected, ["link", ".swp", "full"]);
}
