//! Groups of group sets.
use byssus::config::MountAttrs;
use byssus::discover::Listing;
use byssus::fsops::{entry_kind, exists_already, is_retried, removal, split_leaf};
use byssus::membership::EntryKind;
use byssus::name::{GroupId, Name};
use byssus::path::AbsPath;
use byssus::reconcile::observe::{Note, Observed};
use byssus::sets::GroupSetConfig;
use byssus::state::{MountRecord, State};
use byssus::template::Template;

fn name(s: &str) -> Name {
    Name::new(s).unwrap()
}

fn set(target: &str) -> GroupSetConfig {
    GroupSetConfig {
        name: name("teams"),
        membership_root: AbsPath::new("/members").unwrap(),
        source_root: AbsPath::new("/projects").unwrap(),
        source: Template::parse_for_set("{name}").unwrap(),
        target_root: AbsPath::new("/views").unwrap(),
        target: Template::parse_for_set(target).unwrap(),
        attrs: MountAttrs::default(),
        origin: "/etc/byssus.toml".into(),
    }
}

fn recorded(group: &str) -> State {
    let mut state = State::default();
    state.insert(MountRecord {
        group: GroupId::parse(group).unwrap(),
        name: name("a"),
        source_root: AbsPath::new("/projects").unwrap(),
        source: "a".into(),
        target_root: AbsPath::new("/views").unwrap(),
        target: "red/a".into(),
        mnt_id: 7,
        mnt_id_unique: None,
        root_dev_major: 8,
        root_dev_minor: 1,
        root_ino: 42,
        read_only: Some(true),
        noexec: Some(true),
        nosymfollow: Some(false),
        created_at: "2026-09-12T14:30:01Z".parse().unwrap(),
    });
    state
}

#[test]
fn levels_fill_the_templates() {
    let one = set("{group}/view/{name}");
    assert_eq!(one.depth(), 1);
    let g = one.group(&vec![name("red")]).unwrap();
    assert_eq!(g.membership.as_path(), "/members/red");
    assert_eq!(g.target.as_str(), "red/view/{name}");
    let two = set("{group}/{subgroup}/{name}");
    assert_eq!(two.depth(), 2);
    let g = two.group(&vec![name("red"), name("small")]).unwrap();
    assert_eq!(g.membership.as_path(), "/members/red/small");
    assert_eq!(g.target.as_str(), "red/small/{name}");
    let long = "x".repeat(200);
    let unusable = set("{group}-{group}/{name}").group(&vec![name(&long)]);
    assert!(unusable.is_err());
    let mut observed = Observed::default();
    observed.add_unusable(&name("teams"), &vec![name(&long)], unusable.unwrap_err());
    assert!(matches!(observed.notes[0], Note::SetEntryRejected { .. }));
}

#[test]
fn directories_are_groups_and_the_rest_is_rejected() {
    let mut observed = Observed::default();
    let found = observed.add_listing(
        &State::default(),
        &name("teams"),
        &vec![],
        Listing::Entries(vec![
            (b"red".to_vec(), Ok(EntryKind::Directory)),
            (b".hidden".to_vec(), Ok(EntryKind::Directory)),
            (b"file".to_vec(), Ok(EntryKind::Regular { size: 0 })),
            (b"bad name".to_vec(), Ok(EntryKind::Directory)),
        ]),
    );
    assert_eq!(found.len(), 1);
    assert_eq!(found.at(0).as_str(), "red");
    assert_eq!(observed.notes.len(), 2);
    assert!(observed.scanned_sets.contains(&name("teams")));
}

#[test]
fn a_lost_root_freezes_its_set() {
    let state = recorded("teams/red");
    let frozen = GroupId::parse("teams/red").unwrap();
    let mut observed = Observed::default();
    observed.add_listing(&state, &name("teams"), &vec![], Listing::Deleted);
    assert!(observed.frozen.contains(&frozen));
    assert!(matches!(observed.notes[0], Note::SetRootDeleted { .. }));

    let mut other = Observed::default();
    other.add_listing(&state, &name("crews"), &vec![], Listing::Deleted);
    assert!(!other.frozen.contains(&frozen));
}

#[test]
fn unreadable_directories_freeze_what_is_beneath() {
    let state = recorded("teams/red/small");
    let mut observed = Observed::default();
    let unreadable = || Listing::Unreadable("EIO".into());
    observed.add_listing(&state, &name("teams"), &vec![name("blue")], unreadable());
    assert!(observed.frozen.is_empty());
    observed.add_listing(&state, &name("teams"), &vec![name("red")], unreadable());
    assert!(observed.frozen.contains(&GroupId::parse("teams/red/small").unwrap()));
    assert_eq!(observed.notes.len(), 2);
}

#[test]
fn deleted_group_directories_remove_their_groups() {
    let state = recorded("teams/red/small");
    let mut observed = Observed::default();
    let found = observed.add_listing(&state, &name("teams"), &vec![name("red")], Listing::Deleted);
    assert!(found.is_empty());
    assert!(observed.frozen.is_empty());
    assert!(observed.notes.is_empty());
}

#[test]
fn entries_are_told_by_their_mode() {
    assert_eq!(entry_kind(0o100644, 3), EntryKind::Regular { size: 3 });
    assert_eq!(entry_kind(0o040755, 4096), EntryKind::Directory);
    assert_eq!(entry_kind(0o120777, 4), EntryKind::Symlink);
    assert_eq!(entry_kind(0o010644, 0), EntryKind::Fifo);
    assert_eq!(entry_kind(0o140755, 0), EntryKind::Socket);
    assert_eq!(entry_kind(0o020600, 0), EntryKind::CharDevice);
    assert_eq!(entry_kind(0o060600, 0), EntryKind::BlockDevice);
    assert_eq!(entry_kind(0, 0), EntryKind::Unknown);
}

#[test]
fn paths_are_split_at_the_leaf() {
    assert_eq!(split_leaf("a/b/c"), (Some("a/b".to_owned()), "c".to_owned()));
    assert_eq!(split_leaf("a"), (None, "a".to_owned()));
}

#[test]
fn directory_errors_are_told_apart() {
    assert_eq!(removal(Ok(())), Ok(true));
    assert_eq!(removal(Err(libc::ENOTEMPTY)), Ok(false));
    assert_eq!(removal(Err(libc::EBUSY)), Ok(false));
    assert_eq!(removal(Err(libc::ENOENT)), Ok(false));
    assert_eq!(removal(Err(libc::EACCES)), Err(libc::EACCES));
    assert!(exists_already(libc::EEXIST) && !exists_already(libc::EACCES));
    assert!(is_retried(0, libc::EAGAIN) && !is_retried(16, libc::EAGAIN));
    assert!(!is_retried(0, libc::ENOENT));
}
