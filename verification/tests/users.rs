//! Service users and systemd notifications.
use byssus::notify::{monotonic_usec, one_line, reloading, NotifySocket, StatusLine};
use byssus::privileges::plan::ServiceUser;
use byssus::users::{find_user, resolve_from, supplementary_groups, ReadText, ResolveError};

const PASSWD: &str = "\
root:x:0:0:root:/root:/bin/bash
# comment lines are not valid entries
byssus:x:991:991::/nonexistent:/usr/sbin/nologin
byssus2:x:992:992::/nonexistent:/usr/sbin/nologin
broken:x:notanumber:1::/:/bin/false
";

const GROUP: &str = "\
root:x:0:
byssus:x:991:
acl-readers:x:500:alice,byssus
other:x:501:byssus2
dupe:x:500:byssus
";

#[test]
fn finds_users() {
    assert_eq!(find_user(PASSWD, "byssus"), Some((991, 991)));
    assert_eq!(find_user(PASSWD, "root"), Some((0, 0)));
    assert_eq!(find_user(PASSWD, "byssu"), None);
    assert_eq!(find_user(PASSWD, "broken"), None);
    assert_eq!(find_user(PASSWD, "missing"), None);
}

#[test]
fn supplementary_membership_is_exact() {
    assert_eq!(supplementary_groups(GROUP, "byssus"), [500]);
    assert_eq!(supplementary_groups(GROUP, "byssus2"), [501]);
    assert!(supplementary_groups(GROUP, "nobody").is_empty());
}


fn read(path: &str, text: &str) -> ReadText {
    ReadText { path: path.to_owned(), text: Ok(text.to_owned()) }
}

#[test]
fn resolve_from_files() {
    let user = resolve_from("byssus", read("passwd", PASSWD), read("group", GROUP)).unwrap();
    assert_eq!(
        user,
        ServiceUser {
            name: "byssus".into(),
            uid: 991,
            gid: 991,
            groups: vec![500],
        }
    );
    assert!(matches!(
        resolve_from("ghost", read("passwd", PASSWD), read("group", GROUP)),
        Err(ResolveError::NotFound(..))
    ));
    let none = ReadText { path: "none".to_owned(), text: Err("no such file".to_owned()) };
    assert!(matches!(
        resolve_from("byssus", none, read("group", GROUP)),
        Err(ResolveError::Io { .. })
    ));
}

#[test]
fn notification_messages() {
    let mut line = StatusLine::default();
    assert_eq!(line.ready("2 groups\nand more"), "READY=1\nSTATUS=2 groups and more");
    assert_eq!(line.status("2 groups and more"), None);
    assert_eq!(line.status("3 groups"), Some("STATUS=3 groups".to_owned()));
    assert!(reloading(17).starts_with("RELOADING=1\nMONOTONIC_USEC="));
    assert!(reloading(17).contains("17"));
    assert_eq!(one_line("a\nb"), "a b");
}

#[test]
fn monotonic_times_are_in_microseconds() {
    assert_eq!(monotonic_usec(17, 1_999), 17_000_001);
    assert_eq!(monotonic_usec(-1, -1), 0);
    assert_eq!(
        monotonic_usec(18_446_744_073_708, 999_999_999),
        18_446_744_073_708_999_999
    );
    assert_eq!(monotonic_usec(18_446_744_073_709, 551_615_000), u64::MAX);
}

#[test]
fn disabled_and_invalid() {
    assert!(NotifySocket::parse(b"relative").is_err());
    assert!(NotifySocket::parse(b"").is_err());
    assert_eq!(
        NotifySocket::parse(b"/run/notify"),
        Ok(NotifySocket::Path(b"/run/notify".to_vec()))
    );
    assert_eq!(
        NotifySocket::parse(b"@name"),
        Ok(NotifySocket::Abstract(b"name".to_vec()))
    );
}
