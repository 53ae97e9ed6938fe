//! Log levels and log lines.
use byssus::logging::{quote, stderr_is_journal, LogLevel, LogRecord, Severity};
use byssus::timestamp::Timestamp;

#[test]
fn parses_levels() {
    assert_eq!("WARN".parse::<LogLevel>().unwrap(), LogLevel(Severity::Warn));
    assert!("verbose".parse::<LogLevel>().is_err());
}

#[test]
fn quoting() {
    assert_eq!(quote("ok"), "ok");
    assert_eq!(quote("/srv/a-b_c.d"), "/srv/a-b_c.d");
    assert_eq!(quote(""), "\"\"");
    assert_eq!(quote("two words"), "\"two words\"");
    assert_eq!(quote("a=b"), "\"a=b\"");
    assert_eq!(quote("say \"hi\""), "\"say \\\"hi\\\"\"");
    assert_eq!(quote("line\nbreak"), "\"line\\nbreak\"");
    assert_eq!(quote("back\\slash"), "\"back\\\\slash\"");
    assert_eq!(quote("bell\u{7}"), "\"bell\\u{7}\"");
}

#[test]
fn formats_events_as_logfmt() {
    let mut first = LogRecord::new(Severity::Warn);
    first.add("op", "reject");
    first.add("group", "research");
    first.add("name", ".hidden");
    first.add("reason", "name fails allowlist");
    first.add("count", "3");
    first.add("ok", "true");
    let mut second = LogRecord::new(Severity::Info);
    second.add("msg", "privileges normalized");
    second.add("target_dir", "/v");
    let out = format!("{}\n{}\n", first.line(None), second.line(None));
    assert_eq!(
        out,
        "level=warn op=reject group=research name=.hidden reason=\"name fails allowlist\" count=3 ok=true\n\
         level=info msg=\"privileges normalized\" target_dir=/v\n"
    );
}

#[test]
fn timestamps_are_rfc3339() {
    let now = Timestamp::parse("2026-09-12T14:30:01Z").unwrap();
    let mut record = LogRecord::new(Severity::Error);
    record.add("msg", "x");
    let out = record.line(Some(&now.text()));
    let ts = out.strip_prefix("ts=").unwrap().split(' ').next().unwrap();
    assert!(ts.parse::<Timestamp>().is_ok(), "{out}");
    assert!(ts.ends_with('Z'));
    assert_eq!(out, "ts=2026-09-12T14:30:01Z level=error msg=x");
}

#[test]
fn values_render_apart() {
    let values = [
        "", "a", "a b", "\"a\"", "\\n", "\n", "n", "\u{1}", "\\u{1}", "\u{1}1", "\u{11}", "\u{7f}", "=",
    ];
    for a in values {
        for b in values {
            assert_eq!(quote(a) == quote(b), a == b, "{a:?} {b:?}");
        }
    }
}

#[test]
fn plain_values_stay_bare() {
    for s in ["a", "a-b", "{name}", "it's", "\u{e9}"] {
        assert_eq!(quote(s), s);
    }
    for s in ["", " ", "a=b", "\"", "\\", "\u{9f}"] {
        let quoted = quote(s);
        assert!(quoted.len() >= 2 && quoted.starts_with('"') && quoted.ends_with('"'));
        assert_ne!(quoted, s);
    }
}

#[test]
fn quoted_values_stay_on_one_line() {
    for s in ["a\nb", "tab\t", "\r\n", "\u{1b}[0m"] {
        assert!(!quote(s).contains('\n') && !quote(s).contains('\r'), "{s:?}");
    }
}

#[test]
fn journal_detection_requires_matching_stream() {
    assert!(!stderr_is_journal(None, Some((8, 42))));
    assert!(!stderr_is_journal(Some("8:42"), None));
    assert!(!stderr_is_journal(Some("8"), Some((8, 42))));
    assert!(!stderr_is_journal(Some("8:x"), Some((8, 42))));
    assert!(!stderr_is_journal(Some("8:43"), Some((8, 42))));
    assert!(stderr_is_journal(Some("8:42"), Some((8, 42))));
}

#[test]
fn levels_show_what_is_at_least_as_serious() {
    let all = [Severity::Error, Severity::Warn, Severity::Info, Severity::Debug, Severity::Trace];
    for (i, level) in all.iter().enumerate() {
        for (j, severity) in all.iter().enumerate() {
            assert_eq!(LogLevel(*level).shows(*severity), j <= i);
        }
    }
}
