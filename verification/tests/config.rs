//! Configuration files.
use byssus::config::{
    fragment_names, is_valid_user_name, DaemonConfig, DirOutcome, Examined, Fragment, ListOutcome,
    LoadError, LoadOptions, Loaded, MountAttrs, OwnershipPolicy, ReadOutcome,
};
use byssus::load::{due_dirs, gather_files};
use byssus::name::Name;
use byssus::path::{AbsPath, AbsPathError};
use byssus::raw::{load_from_strs, TextDocument};

fn document<'a>(path: &'a str, content: &'a str, main: bool) -> TextDocument<'a> {
    TextDocument { path, content, main }
}

const GROUP: &str = r#"
[groups.research]
source_root = "/srv/example/projects"
source = "{name}/workspace"
target_root = "/srv/example/groups/research/view"
target = "{name}"
membership = "/srv/example/membership/research"
"#;

fn main_only(content: &str) -> Result<Loaded, LoadError> {
    load_from_strs(&[document("/etc/byssus/byssus.toml", content, true)])
}

fn messages(err: &LoadError) -> Vec<String> {
    err.errors().iter().map(|i| i.text()).collect()
}

fn assert_error_contains(result: Result<Loaded, LoadError>, needle: &str) {
    let err = result.expect_err("expected configuration to be rejected");
    let msgs = messages(&err);
    assert!(
        msgs.iter().any(|m| m.contains(needle)),
        "no error containing {needle:?} in {msgs:#?}"
    );
}

#[test]
fn abs_path_validation() {
    assert_eq!(AbsPath::new("/").unwrap().as_path(), "/");
    assert_eq!(AbsPath::new("/a/b/").unwrap().as_path(), "/a/b");
    assert_eq!(AbsPath::new("a"), Err(AbsPathError::NotAbsolute));
    assert_eq!(AbsPath::new(""), Err(AbsPathError::NotAbsolute));
    assert_eq!(AbsPath::new("/a//b"), Err(AbsPathError::EmptyComponent));
    assert_eq!(AbsPath::new("/a//"), Err(AbsPathError::EmptyComponent));
    assert_eq!(
        AbsPath::new("/a/./b"),
        Err(AbsPathError::DotComponent(".".into()))
    );
    assert_eq!(
        AbsPath::new("/a/.."),
        Err(AbsPathError::DotComponent("..".into()))
    );
    assert_eq!(AbsPath::new("/a\0"), Err(AbsPathError::Nul));
}

#[test]
fn abs_path_beneath_is_component_based() {
    let a = AbsPath::new("/srv/view").unwrap();
    assert!(AbsPath::new("/srv/view").unwrap().is_at_or_beneath(&a));
    assert!(AbsPath::new("/srv/view/x").unwrap().is_at_or_beneath(&a));
    assert!(!AbsPath::new("/srv/viewer").unwrap().is_at_or_beneath(&a));
    assert!(!AbsPath::new("/srv").unwrap().is_at_or_beneath(&a));
}

#[test]
fn minimal_group_uses_defaults() {
    let loaded = main_only(GROUP).unwrap();
    assert!(loaded.warnings.is_empty());
    let config = loaded.config;
    assert_eq!(config.daemon, DaemonConfig::default());
    let group = config.groups.get(&Name::new("research").unwrap()).unwrap();
    assert_eq!(group.source.as_str(), "{name}/workspace");
    assert_eq!(
        group.source_root.as_path(),
        "/srv/example/projects"
    );
    assert_eq!(group.attrs, MountAttrs::default());
    assert!(group.attrs.read_only && group.attrs.noexec && !group.attrs.nosymfollow);
}

#[test]
fn full_configuration() {
    let content = format!(
        r#"
[daemon]
user = "byssus"
state_dir = "/var/lib/byssus-test"
resync_interval_secs = 0
{GROUP}
read_only = false
noexec = false
nosymfollow = true
"#
    );
    let config = main_only(&content).unwrap().config;
    assert_eq!(config.daemon.user.as_deref(), Some("byssus"));
    assert_eq!(
        config.daemon.state_dir.as_path(),
        "/var/lib/byssus-test"
    );
    assert_eq!(config.daemon.resync_interval, None);
    let group = config.groups.value_at(0);
    assert_eq!(
        group.attrs,
        MountAttrs {
            read_only: false,
            noexec: false,
            nosymfollow: true
        }
    );
}

#[test]
fn rejects_unknown_keys() {
    assert_error_contains(main_only("[daemon]\nfoo = 1\n"), "unknown field");
    assert_error_contains(
        main_only(&format!("{GROUP}\nextra = true\n")),
        "unknown field",
    );
    assert_error_contains(main_only("[other]\n"), "unknown field");
}

#[test]
fn rejects_missing_required_fields() {
    assert_error_contains(
        main_only("[groups.g]\nsource_root = \"/a\"\n"),
        "missing field",
    );
}

#[test]
fn rejects_invalid_values() {
    let replace = |from: &str, to: &str| main_only(&GROUP.replace(from, to));
    assert_error_contains(
        replace("\"/srv/example/projects\"", "\"srv/example\""),
        "source_root: path must be absolute",
    );
    assert_error_contains(
        replace("\"{name}/workspace\"", "\"workspace\""),
        "source: template must contain {name}",
    );
    assert_error_contains(
        replace("target = \"{name}\"", "target = \"../{name}\""),
        "target: template contains a '..' path component",
    );
    assert_error_contains(
        replace("[groups.research]", "[groups.\".bad\"]"),
        "invalid group name",
    );
    assert_error_contains(
        main_only("[daemon]\nuser = \"bad:user\"\n"),
        "invalid user name",
    );
    assert_error_contains(
        main_only("[daemon]\nresync_interval_secs = 100000\n"),
        "exceeds the maximum",
    );
    assert_error_contains(
        main_only("[daemon]\nstate_dir = \"relative\"\n"),
        "daemon.state_dir",
    );
}

#[test]
fn user_names() {
    for ok in ["byssus", "_byssus", "svc-byssus", "a.b", "machine$", "u1"] {
        assert!(is_valid_user_name(ok), "{ok}");
    }
    for bad in ["", "-x", "a b", "a:b", "$", &"a".repeat(33)] {
        assert!(!is_valid_user_name(bad), "{bad}");
    }
}

#[test]
fn reports_all_errors_at_once() {
    let content = GROUP
        .replace("\"/srv/example/projects\"", "\"x\"")
        .replace("\"{name}\"", "\"y\"");
    let err = main_only(&content).unwrap_err();
    assert_eq!(err.errors().len(), 2, "{:#?}", err.issues);
}

#[test]
fn membership_beneath_target_root_rejected() {
    let content = GROUP.replace(
        "\"/srv/example/membership/research\"",
        "\"/srv/example/groups/research/view/members\"",
    );
    assert_error_contains(main_only(&content), "must not be at or beneath target_root");

    let other = r#"
[groups.other]
source_root = "/a"
source = "{name}"
target_root = "/srv/example/membership"
target = "{name}"
membership = "/b"
"#;
    assert_error_contains(main_only(&format!("{GROUP}{other}")), "of group 'other'");
}

#[test]
fn fragments_and_duplicates() {
    let frag_group = GROUP.replace("research", "builds");
    let loaded = load_from_strs(&[
        document("/main.toml", "[daemon]\nuser = \"byssus\"\n", true),
        document("/conf.d/a.toml", GROUP, false),
        document("/conf.d/b.toml", &frag_group, false),
    ])
    .unwrap();
    assert_eq!(loaded.config.groups.len(), 2);
    assert_eq!(loaded.config.files.len(), 3);

    let err = load_from_strs(&[
        document("/conf.d/a.toml", GROUP, false),
        document("/conf.d/b.toml", GROUP, false),
    ])
    .unwrap_err();
    assert!(messages(&err)[0].contains("already defined in /conf.d/a.toml"));

    assert_error_contains(
        load_from_strs(&[document("/conf.d/a.toml", "[daemon]\n", false)]),
        "only allowed in the main configuration file",
    );
}

#[test]
fn invalid_toml_reports_file() {
    let err = load_from_strs(&[document("/conf.d/x.toml", "[groups", false)]).unwrap_err();
    assert!(messages(&err)[0].starts_with("/conf.d/x.toml: invalid TOML"));
}


// --- Loading from what was read ------------------------------------------

fn options() -> LoadOptions {
    LoadOptions {
        main_file: "/etc/byssus.toml".into(),
        main_file_required: false,
        config_dir: "/etc/conf.d".into(),
        config_dir_required: false,
        ownership: OwnershipPolicy::Enforce,
        trusted_uid: 1000,
        check_paths: true,
    }
}

fn group(name: &str) -> String {
    format!(
        "[groups.{name}]\nsource_root = \"/p/projects\"\nsource = \"{{name}}\"\ntarget_root = \"/p/view\"\ntarget = \"{{name}}\"\nmembership = \"/p/members\"\n"
    )
}

fn fragment(name: &str, content: &str) -> Fragment {
    Fragment {
        path: format!("/etc/conf.d/{name}"),
        outcome: ReadOutcome::Content(content.to_owned()),
    }
}

fn load(
    options: &LoadOptions,
    main: ReadOutcome,
    dir: ListOutcome,
    examine: &dyn Fn(&str) -> Result<Vec<Examined>, String>,
    look: &dyn Fn(&str) -> DirOutcome,
) -> Result<Loaded, LoadError> {
    let files = gather_files(options, main, dir, vec![]);
    let owners = files.paths(options).iter().map(|path| examine(path)).collect();
    let validated = files.validate(options, &owners);
    let looked = validated.dirs().iter().map(|d| look(d.path.as_path())).collect();
    validated.load(&looked)
}

fn examined(path: &str, uid: u32, mode: u32) -> Result<Vec<Examined>, String> {
    Ok(vec![
        Examined { path: path.to_owned(), outcome: Ok((uid, mode)) },
        Examined { path: "/etc".to_owned(), outcome: Ok((uid, 0o40755)) },
    ])
}

fn trusted(path: &str) -> Result<Vec<Examined>, String> {
    examined(path, 1000, 0o100644)
}

fn present(_: &str) -> DirOutcome {
    DirOutcome::Directory
}

const STATE_DIR: &str = "[daemon]\nstate_dir = \"/p/state\"\n";

#[test]
fn loads_main_and_sorted_fragments() {
    let found = ["20-b.toml", "10-a.toml", ".hidden.toml", "notes.txt"];
    let names = fragment_names(found.iter().map(|n| n.as_bytes().to_vec()).collect());
    let sorted: Vec<Vec<u8>> = (0..names.len()).map(|i| names.at(i).clone()).collect();
    assert_eq!(sorted, [b"10-a.toml".to_vec(), b"20-b.toml".to_vec()]);
    let loaded = load(
        &options(),
        ReadOutcome::Content(STATE_DIR.to_owned()),
        ListOutcome::Fragments(vec![
            fragment("10-a.toml", &group("a")),
            fragment("20-b.toml", &group("b")),
        ]),
        &trusted,
        &present,
    )
    .unwrap();
    assert!(loaded.warnings.is_empty(), "{:#?}", loaded.warnings);
    assert_eq!(
        loaded.config.files,
        ["/etc/byssus.toml", "/etc/conf.d/10-a.toml", "/etc/conf.d/20-b.toml"]
    );
    assert_eq!(loaded.config.groups.len(), 2);
}

#[test]
fn missing_files() {
    let empty = || ListOutcome::Fragments(vec![]);
    let loaded = load(
        &LoadOptions { check_paths: false, ..options() },
        ReadOutcome::Missing,
        empty(),
        &trusted,
        &present,
    )
    .unwrap();
    assert!(loaded.warnings[0].message.contains("no configuration files found"));

    let err = load(
        &LoadOptions { main_file_required: true, ..options() },
        ReadOutcome::Missing,
        empty(),
        &trusted,
        &present,
    )
    .unwrap_err();
    assert!(messages(&err)[0].contains("file does not exist"));

    let err = load(
        &LoadOptions {
            config_dir: "/etc/missing.d".into(),
            config_dir_required: true,
            ..options()
        },
        ReadOutcome::Missing,
        ListOutcome::Missing,
        &trusted,
        &present,
    )
    .unwrap_err();
    assert!(messages(&err)[0].contains("directory does not exist"));
}

#[test]
fn ownership_and_mode_enforced() {
    let read = |options: &LoadOptions| {
        load(
            options,
            ReadOutcome::Content(STATE_DIR.to_owned()),
            ListOutcome::Fragments(vec![]),
            &|path| examined(path, 1000, 0o100664),
            &present,
        )
    };
    let err = read(&options()).unwrap_err();
    assert!(messages(&err)[0].contains("group- or world-writable (mode 0664)"));

    let err = read(&LoadOptions { trusted_uid: 1001, ..options() }).unwrap_err();
    assert!(messages(&err).iter().any(|m| m.contains("expected uid")));

    let loaded = read(&LoadOptions { ownership: OwnershipPolicy::Warn, ..options() }).unwrap();
    assert!(loaded.warnings[0].message.contains("world-writable"));
}

#[test]
fn writable_containing_directory_rejected() {
    let err = load(
        &LoadOptions { check_paths: false, ..options() },
        ReadOutcome::Missing,
        ListOutcome::Fragments(vec![fragment("a.toml", &group("a"))]),
        &|path| {
            Ok(vec![
                Examined { path: path.to_owned(), outcome: Ok((1000, 0o100644)) },
                Examined { path: "/etc/conf.d".to_owned(), outcome: Ok((1000, 0o40777)) },
            ])
        },
        &present,
    )
    .unwrap_err();
    assert!(
        messages(&err)
            .iter()
            .any(|m| m.contains("conf.d is group- or world-writable"))
    );
}

#[test]
fn nonexistent_paths_rejected() {
    let read = |look: &dyn Fn(&str) -> DirOutcome| {
        load(
            &options(),
            ReadOutcome::Content(STATE_DIR.to_owned()),
            ListOutcome::Fragments(vec![fragment("a.toml", &group("a"))]),
            &trusted,
            look,
        )
    };
    let err = read(&|path| match path {
        "/p/members" => DirOutcome::Missing,
        _ => DirOutcome::Directory,
    })
    .unwrap_err();
    let msgs = messages(&err);
    assert!(
        msgs[0].contains("membership:") && msgs[0].contains("does not exist"),
        "{msgs:#?}"
    );
    let err = read(&|path| match path {
        "/p/projects" => DirOutcome::NotADirectory,
        _ => DirOutcome::Directory,
    })
    .unwrap_err();
    let msgs = messages(&err);
    assert!(
        msgs[0].contains("source_root:") && msgs[0].contains("is not a directory"),
        "{msgs:#?}"
    );
    let loaded = read(&|path| match path {
        "/p/view" => DirOutcome::Denied("EACCES".into()),
        _ => DirOutcome::Directory,
    })
    .unwrap();
    assert_eq!(
        loaded.warnings[0].message,
        "target_root: cannot verify /p/view: EACCES"
    );
    let err = read(&|path| match path {
        "/p/state" => DirOutcome::Failed("EIO".into()),
        _ => DirOutcome::Directory,
    })
    .unwrap_err();
    assert!(messages(&err)[0].contains("cannot access /p/state: EIO"));
}

#[test]
fn unreadable_files_are_reported() {
    let err = load(
        &options(),
        ReadOutcome::Failed("EACCES".into()),
        ListOutcome::Fragments(vec![Fragment {
            path: "/etc/conf.d/a.toml".into(),
            outcome: ReadOutcome::Failed("EIO".into()),
        }]),
        &trusted,
        &present,
    )
    .unwrap_err();
    assert_eq!(
        messages(&err),
        [
            "/etc/byssus.toml: cannot read: EACCES",
            "/etc/conf.d/a.toml: cannot read: EIO"
        ]
    );
    let err = load(
        &options(),
        ReadOutcome::Missing,
        ListOutcome::Failed("EACCES".into()),
        &trusted,
        &present,
    )
    .unwrap_err();
    assert_eq!(messages(&err), ["/etc/conf.d: cannot list directory: EACCES"]);
}

#[test]
fn names_in_messages_are_escaped() {
    assert_error_contains(
        main_only("[daemon]\nuser = \"a\\tb\"\n"),
        "'a\\tb'",
    );
}

// --- Group sets ----------------------------------------------------------

const SET: &str = r#"
[group_sets.teams]
membership_root = "/srv/example/members"
source_root = "/srv/example/projects"
source = "{name}"
target_root = "/srv/example/views"
target = "{group}/view/{name}"
"#;

#[test]
fn sets_are_loaded_with_defaults() {
    let config = main_only(SET).unwrap().config;
    let set = config.sets.get(&Name::new("teams").unwrap()).unwrap();
    assert_eq!(set.depth(), 1);
    assert_eq!(set.attrs, MountAttrs::default());
    assert_eq!(set.membership_root.as_path(), "/srv/example/members");
    let group = set.group(&vec![Name::new("red").unwrap()]).unwrap();
    assert_eq!(group.membership.as_path(), "/srv/example/members/red");
    assert_eq!(group.target.as_str(), "red/view/{name}");
    assert_eq!(group.source.as_str(), "{name}");
}

#[test]
fn sets_must_tell_their_groups_apart() {
    let two = SET.replace("{group}", "{group}/{subgroup}");
    let config = main_only(&two).unwrap().config;
    assert_eq!(config.sets.value_at(0).depth(), 2);
    assert!(main_only(&SET.replace("{group}", "all")).is_err());
    assert!(main_only(&SET.replace("{group}", "{subgroup}")).is_err());
}

#[test]
fn memberships_of_sets_stay_outside_target_roots() {
    let inside = SET.replace("/srv/example/members", "/srv/example/views/members");
    assert_error_contains(main_only(&inside), "must not be at or beneath target_root");
    let other = r#"
[groups.g]
source_root = "/a"
source = "{name}"
target_root = "/srv/example/members"
target = "{name}"
membership = "/b"
"#;
    assert_error_contains(main_only(&format!("{SET}{other}")), "of group 'g'");
    let beneath = other.replace("/srv/example/members", "/c").replace("/b", "/srv/example/views/g");
    assert_error_contains(main_only(&format!("{SET}{beneath}")), "of group 'teams/*'");
    let apart = other.replace("/srv/example/members", "/c");
    assert!(main_only(&format!("{SET}{apart}")).is_ok());
}

#[test]
fn beneath_is_transitive() {
    let a = AbsPath::new("/srv").unwrap();
    let b = AbsPath::new("/srv/view").unwrap();
    let c = AbsPath::new("/srv/view/x").unwrap();
    assert!(c.is_at_or_beneath(&b) && b.is_at_or_beneath(&a));
    assert!(c.is_at_or_beneath(&a));
}

#[test]
fn directories_are_looked_for_only_when_nothing_is_wrong() {
    let files = |options: &LoadOptions, content: &str| {
        let files = gather_files(
            options,
            ReadOutcome::Content(content.to_owned()),
            ListOutcome::Missing,
            vec![],
        );
        let owners = files.paths(options).iter().map(|path| trusted(path)).collect();
        files.validate(options, &owners)
    };
    let good = format!("{STATE_DIR}{}", group("a"));
    let validated = files(&options(), &good);
    let paths: Vec<&str> = validated.dirs().iter().map(|d| d.path.as_path()).collect();
    assert_eq!(paths, ["/p/state", "/p/projects", "/p/view", "/p/members"]);

    assert!(files(&LoadOptions { check_paths: false, ..options() }, &good).dirs().is_empty());
    let bad = files(&options(), "[daemon]\nuser = \"-\"\n");
    assert!(bad.dirs().is_empty());
    let (config, issues) = bad.finish(&vec![]);
    assert_eq!(issues.len(), 1);
    assert!(due_dirs(&config, &issues).is_empty());
    assert!(!due_dirs(&config, &vec![]).is_empty());
}

#[test]
fn settings_may_be_lists() {
    let loaded = main_only(
        "daemon = [\"byssus\", \"/s\", 7]\n[groups]\ng = [\"/a\", \"{name}\", \"/b\", \"{name}\", \"/c\", false, true, true, 5]\n",
    )
    .unwrap();
    assert_eq!(loaded.config.daemon.user.as_deref(), Some("byssus"));
    assert_eq!(loaded.config.daemon.state_dir.as_path(), "/s");
    let g = loaded.config.groups.get(&Name::new("g").unwrap()).unwrap();
    assert_eq!(g.membership.as_path(), "/c");
    assert_eq!(
        g.attrs,
        MountAttrs {
            read_only: false,
            noexec: true,
            nosymfollow: true
        }
    );
    assert_error_contains(
        main_only("daemon = [\"byssus\"]\n"),
        "invalid length 1, expected struct RawDaemon with 3 elements",
    );
    assert_error_contains(
        main_only("[groups]\ng = [\"/a\", \"{name}\", \"/b\", \"{name}\", \"/c\"]\n"),
        "invalid length 5, expected struct RawGroup with 8 elements",
    );
    assert_error_contains(
        main_only("daemon = [5]\n"),
        "invalid type: integer `5`, expected a string",
    );
}
