//! The state file.
use byssus::document::DecodeError;
use byssus::name::{GroupId, Name};
use byssus::path::AbsPath;
use byssus::state::{is_clean_relative, MountRecord, State};
use byssus::store::{FileRead, IoError, LoadError, LoadOutcome, LoadStep, StateStore};
use byssus::timestamp::Timestamp;

fn record(group: &str, name: &str) -> MountRecord {
    MountRecord {
        group: GroupId::parse(group).unwrap(),
        name: Name::new(name).unwrap(),
        source_root: AbsPath::new("/srv/example/projects").unwrap(),
        source: format!("{name}/workspace"),
        target_root: AbsPath::new("/srv/example/groups/view").unwrap(),
        target: name.to_owned(),
        mnt_id: 4132,
        mnt_id_unique: Some(2_147_487_780),
        root_dev_major: 8,
        root_dev_minor: 1,
        root_ino: 1_842_211,
        read_only: None,
        noexec: None,
        nosymfollow: None,
        created_at: "2026-09-12T14:30:01Z".parse().unwrap(),
    }
}

fn sample_state() -> State {
    let mut state = State::default();
    state.insert(record("research", "libcurl"));
    let mut r = record("research", "openssl");
    r.mnt_id_unique = None;
    state.insert(r);
    state
}

#[test]
fn encode_format_is_stable() {
    let mut state = State::default();
    state.insert(record("research", "libcurl"));
    let text = String::from_utf8(state.encode()).unwrap();
    let expected = r#"{
  "version": 1,
  "mounts": [
    {
      "group": "research",
      "name": "libcurl",
      "source_root": "/srv/example/projects",
      "source": "libcurl/workspace",
      "target_root": "/srv/example/groups/view",
      "target": "libcurl",
      "mnt_id": 4132,
      "mnt_id_unique": 2147487780,
      "root_dev_major": 8,
      "root_dev_minor": 1,
      "root_ino": 1842211,
      "created_at": "2026-09-12T14:30:01Z"
    }
  ]
}
"#;
    assert_eq!(text, expected);
}

#[test]
fn applied_attributes_are_recorded() {
    let mut r = record("research", "libcurl");
    r.read_only = Some(true);
    r.noexec = Some(true);
    r.nosymfollow = Some(false);
    let mut state = State::default();
    state.insert(r);
    let text = String::from_utf8(state.encode()).unwrap();
    let expected = r#"{
  "version": 1,
  "mounts": [
    {
      "group": "research",
      "name": "libcurl",
      "source_root": "/srv/example/projects",
      "source": "libcurl/workspace",
      "target_root": "/srv/example/groups/view",
      "target": "libcurl",
      "mnt_id": 4132,
      "mnt_id_unique": 2147487780,
      "root_dev_major": 8,
      "root_dev_minor": 1,
      "root_ino": 1842211,
      "read_only": true,
      "noexec": true,
      "nosymfollow": false,
      "created_at": "2026-09-12T14:30:01Z"
    }
  ]
}
"#;
    assert_eq!(text, expected);
    let decoded = State::decode(text.as_bytes()).unwrap();
    assert_eq!(decoded, state);
    let nulled = text.replace("\"noexec\": true", "\"noexec\": null");
    let decoded = State::decode(nulled.as_bytes()).unwrap();
    let read = decoded.get(&record("research", "libcurl").key()).unwrap();
    assert_eq!(
        (read.read_only, read.noexec, read.nosymfollow),
        (Some(true), None, Some(false))
    );
    let wrong = text.replace("\"noexec\": true", "\"noexec\": 1");
    assert!(matches!(
        State::decode(wrong.as_bytes()),
        Err(DecodeError::Malformed(m)) if m.contains("expected a boolean")
    ));
}

#[test]
fn round_trip() {
    let state = sample_state();
    let decoded = State::decode(&state.encode()).unwrap();
    assert_eq!(decoded, state);
    let openssl = decoded.get(&record("research", "openssl").key()).unwrap();
    assert_eq!(openssl.mnt_id_unique, None);
    assert!(!String::from_utf8(state.encode()).unwrap().contains("null"));
}

#[test]
fn identity_and_key() {
    let r = record("g", "n");
    let id = r.identity();
    assert_eq!(id.mnt_id, 4132);
    assert_eq!(id.root.ino, 1_842_211);
    assert_eq!(r.key().text(), "g/n");
}

#[test]
fn version_handling() {
    assert_eq!(
        State::decode(br#"{"version": 2, "mounts": []}"#),
        Err(DecodeError::UnsupportedVersion(2))
    );
    assert!(matches!(
        State::decode(br#"{"mounts": []}"#),
        Err(DecodeError::Malformed(m)) if m.contains("missing 'version'")
    ));
    assert!(matches!(
        State::decode(br#"{"version": "1", "mounts": []}"#),
        Err(DecodeError::Malformed(_))
    ));
    assert_eq!(
        State::decode(br#"{"version": 1, "mounts": []}"#),
        Ok(State::default())
    );
}

#[test]
fn rejects_malformed_documents() {
    let valid = String::from_utf8(sample_state().encode()).unwrap();
    let cases = [
        ("not json".to_owned(), "expected"),
        (
            valid.replace("\"version\": 1,", "\"version\": 1, \"extra\": 0,"),
            "unknown field",
        ),
        (
            valid.replace("\"root_ino\"", "\"root_inode\""),
            "unknown field",
        ),
        (
            valid.replace("\"libcurl/workspace\"", "\"../x\""),
            "invalid source path",
        ),
        (
            valid.replace("\"target\": \"libcurl\"", "\"target\": \"/abs\""),
            "invalid target path",
        ),
        (
            valid.replace("\"name\": \"libcurl\"", "\"name\": \".bad\""),
            "begins with '.'",
        ),
        (
            valid.replace("\"/srv/example/projects\"", "\"relative\""),
            "absolute",
        ),
        (
            valid.replace("\"name\": \"openssl\"", "\"name\": \"libcurl\""),
            "duplicate record for research/libcurl",
        ),
    ];
    for (doc, needle) in cases {
        match State::decode(doc.as_bytes()) {
            Err(DecodeError::Malformed(m)) => assert!(m.contains(needle), "{needle}: {m}"),
            other => panic!("{needle}: unexpected {other:?}"),
        }
    }
}

#[test]
fn records_may_be_lists() {
    let document = |values: &str| format!("{{\"version\": 1, \"mounts\": [[{values}]]}}");
    let head = r#""research", "libcurl", "/srv/example/projects", "libcurl/workspace",
        "/srv/example/groups/view", "libcurl", 4132"#;
    let tail = r#"8, 1, 1842211, "2026-09-12T14:30:01Z""#;
    let mut expected = State::default();
    expected.insert(record("research", "libcurl"));
    assert_eq!(
        State::decode(document(&format!("{head}, 2147487780, {tail}")).as_bytes()),
        Ok(expected)
    );
    let decoded = State::decode(document(&format!("{head}, null, {tail}")).as_bytes()).unwrap();
    let key = record("research", "libcurl").key();
    assert_eq!(decoded.get(&key).unwrap().mnt_id_unique, None);

    let error = |values: &str| match State::decode(document(values).as_bytes()) {
        Err(DecodeError::Malformed(m)) => m,
        other => panic!("unexpected {other:?}"),
    };
    assert_eq!(
        error("\"research\""),
        "invalid length 1, expected struct MountRecord with 12 elements"
    );
    assert_eq!(
        error(head),
        "invalid length 8, expected struct MountRecord with 12 elements"
    );
    assert_eq!(
        error(&format!("{head}, 1, {tail}, 0")),
        "invalid length 13, expected fewer elements in array"
    );
    assert_eq!(error("\"research\", 5"), "invalid type: integer `5`, expected a string");
}

#[test]
fn clean_relative_paths() {
    for ok in ["a", "a/b", "a.b/..c", "x/y/z"] {
        assert!(is_clean_relative(ok), "{ok}");
    }
    for bad in ["", "/a", "a/", "a//b", ".", "a/../b", "a/./b", "a\0"] {
        assert!(!is_clean_relative(bad), "{bad}");
    }
}


fn found(bytes: &[u8]) -> FileRead {
    FileRead::Content(bytes.to_vec())
}

#[test]
fn store_missing_save_and_load() {
    let store = StateStore::new("/var/lib/byssus");
    assert_eq!(store.path(), "/var/lib/byssus/state.json");
    assert_eq!(store.temporary_path(), "/var/lib/byssus/state.json.tmp");
    assert_eq!(
        store.load_read_only(FileRead::Missing).unwrap(),
        LoadOutcome::Missing
    );

    let state = sample_state();
    let now = Timestamp::parse("2026-09-12T14:30:01.5Z").unwrap();
    match store.load_for_write(found(&state.encode()), &now) {
        LoadStep::Done(Ok(LoadOutcome::Loaded(loaded))) => assert_eq!(loaded, state),
        _ => panic!("not loaded"),
    }

    let mut smaller = sample_state();
    smaller.remove(&record("research", "libcurl").key());
    assert_eq!(
        store.load_read_only(found(&smaller.encode())).unwrap().into_state(),
        smaller
    );
    assert_eq!(smaller.len(), 1);
}

#[test]
fn corrupt_file_preserved_only_for_writers() {
    let store = StateStore::new("/s");
    assert!(matches!(
        store.load_read_only(found(b"{garbage")).unwrap(),
        LoadOutcome::Corrupt { preserved_as: None, .. }
    ));
    let now: Timestamp = "2026-09-12T14:30:01.5Z".parse().unwrap();
    match store.load_for_write(found(b"{garbage"), &now) {
        LoadStep::SetAside { reason, aside } => {
            assert_eq!(aside, "/s/state.json.corrupt-20260912T143001.5Z");
            match store.set_aside(reason, aside, Ok(())) {
                Ok(LoadOutcome::Corrupt { preserved_as: Some(p), .. }) => {
                    assert_eq!(p, "/s/state.json.corrupt-20260912T143001.5Z");
                }
                _ => panic!("not preserved"),
            }
        }
        _ => panic!("not set aside"),
    }
    let failed = IoError { text: "EROFS".into(), denied: false };
    assert!(matches!(
        store.set_aside("bad".into(), "/s/x".into(), Err(failed)),
        Err(LoadError::Io { .. })
    ));
}

#[test]
fn unsupported_version_is_an_error_and_untouched() {
    let store = StateStore::new("/s");
    let now: Timestamp = "2026-09-12T14:30:01Z".parse().unwrap();
    let read = found(br#"{"version": 9, "mounts": []}"#);
    assert!(matches!(
        store.load_for_write(read, &now),
        LoadStep::Done(Err(LoadError::UnsupportedVersion { .. }))
    ));
}

#[test]
fn unreadable_file_is_io_error() {
    let store = StateStore::new("/s");
    let failed = FileRead::Failed(IoError { text: "EISDIR".into(), denied: false });
    match store.load_read_only(failed) {
        Err(e) => assert!(e.message().contains("EISDIR")),
        Ok(_) => panic!("loaded"),
    }
}

#[test]
fn states_are_keyed_by_group_and_member() {
    let mut state = sample_state();
    assert_eq!(state.len(), 2);
    assert!(!state.is_empty());
    let key = record("research", "libcurl").key();
    let mut changed = record("research", "libcurl");
    changed.mnt_id = 7;
    assert_eq!(state.insert(changed).unwrap().mnt_id, 4132);
    assert_eq!(state.get(&key).unwrap().mnt_id, 7);
    assert_eq!(state.len(), 2);
    assert_eq!(state.records()[1].name.as_str(), "openssl");
    assert_eq!(state.remove(&key).unwrap().mnt_id, 7);
    assert!(state.get(&key).is_none());
}

#[test]
fn timestamps_are_read_and_written() {
    let t = Timestamp::parse("2026-09-12T14:30:01Z").unwrap();
    assert_eq!(t.text(), "2026-09-12T14:30:01Z");
    assert_eq!(t.formatted("%Y%m%d"), "20260912");
    assert!(Timestamp::parse("yesterday").is_err());
}
