//! Names and group identifiers.
use byssus::name::{display_bytes, GroupId, Name, NameError, MAX_NAME_LEN};


#[test]
fn accepts_typical_names() {
    for s in ["libcurl", "openssl-3", "a", "A_b.c-d", "0", "x.", "name..x"] {
        assert_eq!(Name::new(s).unwrap().as_str(), s, "{s}");
    }
}

#[test]
fn accepts_maximum_length() {
    let s = "a".repeat(MAX_NAME_LEN);
    assert!(Name::new(&s).is_ok());
}

#[test]
fn rejects_too_long() {
    let s = "a".repeat(MAX_NAME_LEN + 1);
    assert_eq!(Name::new(&s), Err(NameError::TooLong(MAX_NAME_LEN + 1)));
}

#[test]
fn rejects_empty() {
    assert_eq!(Name::new(""), Err(NameError::Empty));
}

#[test]
fn rejects_leading_dot_including_dot_entries() {
    for s in [".", "..", ".hidden", ".name.swp"] {
        assert_eq!(Name::new(s), Err(NameError::LeadingDot), "{s}");
    }
}

#[test]
fn rejects_disallowed_bytes() {
    let cases: &[(&[u8], u8, usize)] = &[
        (b"a/b", b'/', 1),
        (b"a b", b' ', 1),
        (b"a\0", 0, 1),
        (b"a\nb", b'\n', 1),
        (b"{name}", b'{', 0),
        (b"caf\xc3\xa9", 0xc3, 3),
        (b"a:b", b':', 1),
        (b"a\\b", b'\\', 1),
        (b"a*", b'*', 1),
    ];
    for &(input, byte, offset) in cases {
        assert_eq!(
            Name::from_bytes(input),
            Err(NameError::InvalidByte { byte, offset }),
            "{}",
            display_bytes(input)
        );
    }
}

#[test]
fn group_ids() {
    let s = GroupId::parse("acme").unwrap();
    assert_eq!(s.set(), None);
    assert_eq!(s.text(), "acme");
    let g = GroupId::parse("research/acme").unwrap();
    assert_eq!(g.set().unwrap().as_str(), "research");
    assert_eq!(g.path().len(), 1);
    assert_eq!(g.text(), "research/acme");
    let sub = GroupId::parse("projects/acme/research").unwrap();
    assert_eq!(
        sub.path().iter().map(|n| n.as_str()).collect::<Vec<_>>(),
        ["acme", "research"]
    );
    assert_eq!(sub.text(), "projects/acme/research");
    assert_ne!(s, g);
    for bad in [
        "",
        "/acme",
        "research/",
        "a/b/c/d",
        ".x",
        "research/.x",
        "a b",
        "a//b",
    ] {
        assert!(GroupId::parse(bad).is_err(), "{bad}");
    }
    assert_eq!(GroupId::parse(&sub.text()).unwrap(), sub);
    assert!("a/b/c/d".parse::<GroupId>().is_err());
}

#[test]
fn group_id_prefixes() {
    let org = GroupId::parse("projects/acme").unwrap();
    let sub = GroupId::parse("projects/acme/research").unwrap();
    assert!(sub.starts_with(&org));
    assert!(sub.starts_with(&sub));
    assert!(!org.starts_with(&sub));
    assert!(!sub.starts_with(&GroupId::parse("other/acme").unwrap()));
    assert!(!sub.starts_with(&GroupId::parse("projects/acm").unwrap()));
    assert!(
        !GroupId::parse("acme")
            .unwrap()
            .starts_with(&GroupId::parse("x/acme").unwrap())
    );
}

#[test]
fn display_bytes_escapes_unprintable() {
    assert_eq!(display_bytes(b"ok"), "ok");
    assert_eq!(display_bytes(b"a\nb\xff"), "a\\nb\\xff");
}

#[test]
fn display_bytes_keeps_printable_ascii() {
    assert_eq!(display_bytes(b"it's"), "it's");
    assert_eq!(display_bytes(b"a \"b\" c\\d~"), "a \"b\" c\\d~");
    assert_eq!(display_bytes(b"\x00\t\r\x7f"), "\\x00\\t\\r\\x7f");
    for b in 0x20..=0x7eu8 {
        assert_eq!(display_bytes(&[b]), char::from(b).to_string());
    }
}

#[test]
fn name_messages() {
    assert_eq!(NameError::Empty.message(), "name is empty");
    assert_eq!(
        NameError::InvalidByte { byte: 0x3a, offset: 3 }.message(),
        "name contains disallowed byte 0x3a at offset 3"
    );
    assert_eq!("libcurl".parse::<Name>().unwrap().as_str(), "libcurl");
    assert!("../etc".parse::<Name>().is_err());
}
