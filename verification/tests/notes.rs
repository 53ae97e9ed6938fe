//! Observation notes, logged once.
use byssus::membership::{EntryKind, RejectReason, Rejection};
use byssus::name::GroupId;
use byssus::order::KeySet;
use byssus::reconcile::observe::{Note, Observed};
use byssus::reconcile::{note_identity, NoteEvent, NoteLog, Trigger};


fn name(s: &str) -> GroupId {
    GroupId::parse(s).unwrap()
}

fn rejected(group: &str, entry: &str, reason: RejectReason) -> Note {
    Note::Rejected {
        group: name(group),
        rejection: Rejection {
            display_name: entry.into(),
            reason,
        },
    }
}

fn observed(scanned: &[&str], notes: Vec<Note>) -> Observed {
    let mut observed = Observed { notes, ..Observed::default() };
    for g in scanned {
        observed.members.insert(name(g), KeySet::new());
    }
    observed
}

fn summarize(events: &[NoteEvent<'_>]) -> Vec<String> {
    events
        .iter()
        .map(|e| match e {
            NoteEvent::Raised(n) => format!("raised {}", note_identity(n).0.subject),
            NoteEvent::Cleared { subject, .. } => format!("cleared {subject}"),
        })
        .collect()
}

#[test]
fn persistent_notes_are_reported_once() {
    let mut log = NoteLog::default();
    let symlink = || {
        rejected(
            "g",
            "link",
            RejectReason::NotRegularFile(EntryKind::Symlink),
        )
    };

    let first = observed(&["g"], vec![symlink()]);
    assert_eq!(summarize(&log.update(&first)), ["raised link"]);
    let again = observed(&["g"], vec![symlink()]);
    assert!(log.update(&again).is_empty());

    // A changed reason is reported again.
    let changed = observed(
        &["g"],
        vec![rejected("g", "link", RejectReason::NotEmpty(3))],
    );
    assert_eq!(summarize(&log.update(&changed)), ["raised link"]);

    // Fixed: reported as cleared once.
    let fixed = observed(&["g"], vec![]);
    assert_eq!(summarize(&log.update(&fixed)), ["cleared link"]);
    assert!(log.update(&observed(&["g"], vec![])).is_empty());
}

#[test]
fn unexamined_groups_keep_their_notes() {
    let mut log = NoteLog::default();
    let unreadable = || Note::MembershipUnreadable {
        group: name("g"),
        error: "EACCES".into(),
    };
    assert_eq!(log.update(&observed(&[], vec![unreadable()])).len(), 1);
    assert!(log.update(&observed(&[], vec![unreadable()])).is_empty());
    // Group not examined at all (e.g. degraded): nothing cleared.
    assert!(log.update(&observed(&[], vec![])).is_empty());
    // Scanned successfully again: cleared.
    assert_eq!(
        summarize(&log.update(&observed(&["g"], vec![]))),
        ["cleared "]
    );
}

#[test]
fn reports_are_log_lines() {
    let mut log = NoteLog::default();
    let link = rejected("g", "link", RejectReason::NotRegularFile(EntryKind::Symlink));
    let lines: Vec<String> = log
        .report(&observed(&["g"], vec![link]), Trigger::Inotify)
        .iter()
        .map(|r| r.line(None))
        .collect();
    assert_eq!(lines.len(), 1);
    assert!(lines[0].starts_with("level=warn op=reject group=g name=link"), "{}", lines[0]);
    assert!(lines[0].contains("trigger=inotify"), "{}", lines[0]);
}
