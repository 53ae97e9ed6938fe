//! Reconciliation of desired membership against state and the kernel.
//!
//! A pass is: [`observe`] → [`plan`] → report findings → execute.
pub mod confined;
pub mod decision;
pub mod execute;
pub mod laws;
pub mod observe;
pub mod pass;
pub mod plan;
pub mod rows;
pub mod table;

use vstd::prelude::*;
use vstd::string::*;

use crate::logging::{field, LogRecord, LogRecordView, Severity};
use crate::name::{GroupId, GroupIdView, Name};
use crate::order::{in_order, is_text_before, lemma_text_order, text_before, Key, KeySet, Table};
use crate::reconcile::observe::{note_views, Note, NoteView, Observed, ObservedView};
use crate::reconcile::plan::{finding_views, key_views, ConflictKind, Finding, FindingView};
use crate::state::{KeyView, RecordKey};
use crate::text::{decimal, decimal_text, join, join_texts, texts};

verus! {

/// Why a reconciliation pass is running.
#[derive(Debug, Clone, Copy, PartialEq, Eq, Structural)]
pub enum Trigger {
    /// Daemon startup.
    Startup,
    /// A membership directory changed.
    Inotify,
    /// Periodic resynchronization.
    Resync,
    /// Configuration reload.
    Reload,
    /// `byssus reconcile`.
    Cli,
}

impl Trigger {
    /// The name of the trigger.
    pub open spec fn text(self) -> Seq<char> {
        match self {
            Trigger::Startup => "startup"@,
            Trigger::Inotify => "inotify"@,
            Trigger::Resync => "resync"@,
            Trigger::Reload => "reload"@,
            Trigger::Cli => "cli"@,
        }
    }

    /// The name of the trigger.
    pub fn as_str(&self) -> (r: &'static str)
        ensures
            r@ == self.text(),
    {
        match self {
            Trigger::Startup => "startup",
            Trigger::Inotify => "inotify",
            Trigger::Resync => "resync",
            Trigger::Reload => "reload",
            Trigger::Cli => "cli",
        }
    }
}

// Notes across passes.

/// What a note is about.
#[derive(Debug, PartialEq, Eq)]
pub struct NoteKey {
    /// Group, or the groups of a set.
    pub group: String,
    /// Entry name, or empty for a group-level note.
    pub subject: String,
}

/// What a note is about.
#[verifier::ext_equal]
pub struct NoteKeyView {
    /// Group.
    pub group: Seq<char>,
    /// Entry name, or empty for a group-level note.
    pub subject: Seq<char>,
}

impl View for NoteKey {
    type V = NoteKeyView;

    open spec fn view(&self) -> NoteKeyView {
        NoteKeyView { group: self.group@, subject: self.subject@ }
    }
}

impl Clone for NoteKey {
    fn clone(&self) -> (r: Self)
        ensures
            r@ == self@,
    {
        NoteKey { group: self.group.clone(), subject: self.subject.clone() }
    }
}

impl Key for NoteKey {
    open spec fn before(a: NoteKeyView, b: NoteKeyView) -> bool {
        text_before(a.group, b.group) || (a.group == b.group && text_before(a.subject, b.subject))
    }

    proof fn lemma_key_order() {
        lemma_text_order();
        let text = |a: Seq<char>, b: Seq<char>| text_before(a, b);
        let f = |a: NoteKeyView, b: NoteKeyView| Self::before(a, b);
        assert forall|a: NoteKeyView| !#[trigger] f(a, a) by {
            assert(!text(a.group, a.group));
            assert(!text(a.subject, a.subject));
        }
        assert forall|a: NoteKeyView, b: NoteKeyView, c: NoteKeyView| #[trigger] f(a, b)
            && #[trigger] f(b, c) implies f(a, c) by {
            assert(text(a.group, b.group) && text(b.group, c.group) ==> text(a.group, c.group));
            assert(text(a.subject, b.subject) && text(b.subject, c.subject) ==> text(
                a.subject,
                c.subject,
            ));
        }
        assert forall|a: NoteKeyView, b: NoteKeyView| #[trigger] f(a, b) || a == b || f(b, a) by {
            assert(text(a.group, b.group) || a.group == b.group || text(b.group, a.group));
            assert(text(a.subject, b.subject) || a.subject == b.subject || text(
                b.subject,
                a.subject,
            ));
        }
    }

    fn is_before(&self, other: &Self) -> (r: bool) {
        assert(NoteKey::before(self@, other@) == (text_before(self@.group, other@.group) || (
        self@.group == other@.group && text_before(self@.subject, other@.subject))));
        is_text_before(self.group.as_str(), other.group.as_str()) || (crate::text::same(
            self.group.as_str(),
            other.group.as_str(),
        ) && is_text_before(self.subject.as_str(), other.subject.as_str()))
    }
}

/// The label of the groups of a set.
pub open spec fn set_label(set: Seq<char>) -> Seq<char> {
    set + "/*"@
}

/// The label of the groups of a set.
pub fn set_text(set: &Name) -> (r: String)
    ensures
        r@ == set_label(set@),
{
    let mut out = String::new();
    out.append(set.as_str());
    out.append("/*");
    assert(out@ =~= set_label(set@));
    out
}

impl NoteView {
    /// What the note is about.
    pub open spec fn key(self) -> NoteKeyView {
        match self {
            NoteView::Rejected { group, rejection } => NoteKeyView {
                group: group.text(),
                subject: rejection.display_name,
            },
            NoteView::InterpolationFailed { group, name, field, error } => NoteKeyView {
                group: group.text(),
                subject: name,
            },
            NoteView::SetEntryRejected { set, rejection } => NoteKeyView {
                group: set_label(set),
                subject: rejection.display_name,
            },
            NoteView::SetRootDeleted { set } => NoteKeyView {
                group: set_label(set),
                subject: Seq::empty(),
            },
            NoteView::SetRootUnreadable { set, error } => NoteKeyView {
                group: set_label(set),
                subject: Seq::empty(),
            },
            NoteView::MembershipDeleted { group } => NoteKeyView {
                group: group.text(),
                subject: Seq::empty(),
            },
            NoteView::MembershipUnreadable { group, error } => NoteKeyView {
                group: group.text(),
                subject: Seq::empty(),
            },
        }
    }

    /// What the note says about it.
    pub open spec fn detail(self) -> Seq<char> {
        match self {
            NoteView::Rejected { group, rejection } => rejection.reason.text(),
            NoteView::InterpolationFailed { group, name, field, error } => field + " template: "@
                + error.text(),
            NoteView::SetEntryRejected { set, rejection } => rejection.reason.text(),
            NoteView::SetRootDeleted { set } => "deleted"@,
            NoteView::SetRootUnreadable { set, error } => error,
            NoteView::MembershipDeleted { group } => "deleted"@,
            NoteView::MembershipUnreadable { group, error } => error,
        }
    }
}

fn template_text(field: &str, error: &crate::template::InterpolateError) -> (r: String)
    ensures
        r@ == field@ + " template: "@ + error.text(),
{
    let mut out = String::new();
    out.append(field);
    out.append(" template: ");
    out.append(error.message().as_str());
    assert(out@ =~= field@ + " template: "@ + error.text());
    out
}

/// What a note is about, and what it says about it.
pub fn note_identity(note: &Note) -> (r: (NoteKey, String))
    ensures
        r.0@ == note@.key(),
        r.1@ == note@.detail(),
{
    match note {
        Note::Rejected { group, rejection } => (
            NoteKey { group: group.text(), subject: rejection.display_name.clone() },
            rejection.reason.message(),
        ),
        Note::InterpolationFailed { group, name, field, error } => (
            NoteKey { group: group.text(), subject: name.as_str().to_owned() },
            template_text(field, error),
        ),
        Note::SetEntryRejected { set, rejection } => (
            NoteKey { group: set_text(set), subject: rejection.display_name.clone() },
            rejection.reason.message(),
        ),
        Note::SetRootDeleted { set } => (
            NoteKey { group: set_text(set), subject: String::new() },
            "deleted".to_owned(),
        ),
        Note::SetRootUnreadable { set, error } => (
            NoteKey { group: set_text(set), subject: String::new() },
            error.clone(),
        ),
        Note::MembershipDeleted { group } => (
            NoteKey { group: group.text(), subject: String::new() },
            "deleted".to_owned(),
        ),
        Note::MembershipUnreadable { group, error } => (
            NoteKey { group: group.text(), subject: String::new() },
            error.clone(),
        ),
    }
}

/// A change in the set of active observation notes.
#[derive(Debug, PartialEq, Eq)]
pub enum NoteEvent<'a> {
    /// A note that is new, or whose detail changed.
    Raised(&'a Note),
    /// A previously reported note no longer applies.
    Cleared {
        /// Group.
        group: String,
        /// Entry name, or empty for a group-level note.
        subject: String,
    },
}

/// What a change stands for.
#[verifier::ext_equal]
pub enum NoteEventView {
    /// A note that is new, or whose detail changed.
    Raised(NoteView),
    /// A previously reported note no longer applies.
    Cleared(NoteKeyView),
}

impl<'a> View for NoteEvent<'a> {
    type V = NoteEventView;

    open spec fn view(&self) -> NoteEventView {
        match self {
            NoteEvent::Raised(note) => NoteEventView::Raised(note@),
            NoteEvent::Cleared { group, subject } => NoteEventView::Cleared(
                NoteKeyView { group: group@, subject: subject@ },
            ),
        }
    }
}

/// The views of a list of changes.
pub open spec fn event_views(events: Seq<NoteEvent<'_>>) -> Seq<NoteEventView> {
    events.map_values(|e: NoteEvent<'_>| e@)
}

/// Whether a group was examined in a pass: it was scanned, its set was
/// scanned, or there is a note on it.
pub open spec fn examined(o: ObservedView, label: Seq<char>) -> bool {
    ||| exists|g: GroupIdView| #[trigger] o.members.contains_key(g) && g.text() == label
    ||| exists|s: Seq<char>| #[trigger] o.scanned_sets.contains(s) && set_label(s) == label
    ||| exists|i: int| 0 <= i < o.notes.len() && (#[trigger] o.notes[i]).key().group == label
}

/// What the notes say, by what they are about; the last one prevails.
pub open spec fn noted(notes: Seq<NoteView>) -> Map<NoteKeyView, Seq<char>>
    decreases notes.len(),
{
    if notes.len() == 0 {
        Map::empty()
    } else {
        noted(notes.drop_last()).insert(notes.last().key(), notes.last().detail())
    }
}

/// Whether a note says nothing new.
pub open spec fn already_reported(active: Map<NoteKeyView, Seq<char>>, note: NoteView) -> bool {
    active.contains_key(note.key()) && active[note.key()] == note.detail()
}

/// The notes that are new, or whose detail changed, in order.
pub open spec fn raised(active: Map<NoteKeyView, Seq<char>>, notes: Seq<NoteView>) -> Seq<
    NoteEventView,
>
    decreases notes.len(),
{
    if notes.len() == 0 {
        Seq::empty()
    } else {
        let front = raised(active, notes.drop_last());
        if already_reported(active, notes.last()) {
            front
        } else {
            front.push(NoteEventView::Raised(notes.last()))
        }
    }
}

/// Whether an active note no longer applies.
pub open spec fn is_cleared(o: ObservedView, key: NoteKeyView) -> bool {
    !noted(o.notes).contains_key(key) && examined(o, key.group)
}

/// The active notes among `keys` that no longer apply, in order.
pub open spec fn cleared(o: ObservedView, keys: Seq<NoteKeyView>) -> Seq<NoteEventView>
    decreases keys.len(),
{
    if keys.len() == 0 {
        Seq::empty()
    } else {
        let front = cleared(o, keys.drop_last());
        if is_cleared(o, keys.last()) {
            front.push(NoteEventView::Cleared(keys.last()))
        } else {
            front
        }
    }
}

/// The active notes after a pass: those of the pass, and those of groups that
/// were not examined.
pub open spec fn active_after(active: Map<NoteKeyView, Seq<char>>, o: ObservedView) -> Map<
    NoteKeyView,
    Seq<char>,
> {
    Map::new(
        |k: NoteKeyView|
            noted(o.notes).contains_key(k) || (active.contains_key(k) && !examined(o, k.group)),
        |k: NoteKeyView|
            if noted(o.notes).contains_key(k) {
                noted(o.notes)[k]
            } else {
                active[k]
            },
    )
}

/// The changes that a pass brings: what is raised, then what is cleared.
pub open spec fn note_events(active: Map<NoteKeyView, Seq<char>>, o: ObservedView) -> Seq<
    NoteEventView,
> {
    raised(active, o.notes) + cleared(o, in_order::<NoteKey>(active.dom()))
}

/// Tracks reported observation notes across passes so each is logged once.
#[derive(Debug)]
pub struct NoteLog {
    active: Table<NoteKey, String>,
}

impl View for NoteLog {
    type V = Map<NoteKeyView, Seq<char>>;

    closed spec fn view(&self) -> Map<NoteKeyView, Seq<char>> {
        self.active@
    }
}

impl Default for NoteLog {
    fn default() -> (r: Self)
        ensures
            r@ == Map::<NoteKeyView, Seq<char>>::empty(),
    {
        NoteLog { active: Table::new() }
    }
}

/// The labels of the groups that were scanned, or whose set was.
fn scanned_labels(observed: &Observed) -> (r: KeySet<String>)
    ensures
        forall|l: Seq<char>| #[trigger]
            r@.contains(l) <==> ((exists|g: GroupIdView| #[trigger]
                observed@.members.contains_key(g) && g.text() == l) || (exists|s: Seq<char>|
                #[trigger] observed@.scanned_sets.contains(s) && set_label(s) == l)),
{
    let mut out: KeySet<String> = KeySet::new();
    let n: usize = observed.members.len();
    let ghost groups = observed.members.keys();
    let mut i: usize = 0;
    while i < n
        invariant
            i <= n,
            n == groups.len(),
            groups == observed.members.keys(),
            forall|l: Seq<char>| #[trigger]
                out@.contains(l) <==> exists|j: int| 0 <= j < i && (#[trigger] groups[j]).text() == l,
        decreases n - i,
    {
        let ghost before = out@;
        let _ = out.insert(observed.members.key_at(i).text());
        i += 1;
        assert forall|l: Seq<char>| #[trigger] out@.contains(l) implies exists|j: int|
            0 <= j < i && (#[trigger] groups[j]).text() == l by {
            if before.contains(l) {
                let j = choose|j: int| 0 <= j < i - 1 && (#[trigger] groups[j]).text() == l;
                assert(groups[j].text() == l);
            } else {
                assert(groups[i - 1].text() == l);
            }
        }
    }
    let ghost first = out@;
    proof {
        assert forall|l: Seq<char>| #[trigger] first.contains(l) <==> exists|g: GroupIdView|
            #[trigger] observed@.members.contains_key(g) && g.text() == l by {
            if first.contains(l) {
                let j = choose|j: int| 0 <= j < n && (#[trigger] groups[j]).text() == l;
                assert(groups.to_set().contains(groups[j]));
                assert(observed@.members.contains_key(groups[j]));
            }
            if exists|g: GroupIdView| #[trigger]
                observed@.members.contains_key(g) && g.text() == l {
                let g = choose|g: GroupIdView| #[trigger]
                    observed@.members.contains_key(g) && g.text() == l;
                assert(groups.to_set().contains(g));
                let j = choose|j: int| 0 <= j < groups.len() && groups[j] == g;
                assert(groups[j].text() == l);
            }
        }
    }
    let m: usize = observed.scanned_sets.len();
    let ghost sets = observed.scanned_sets.keys();
    let mut k: usize = 0;
    while k < m
        invariant
            k <= m,
            m == sets.len(),
            sets == observed.scanned_sets.keys(),
            forall|l: Seq<char>| #[trigger]
                out@.contains(l) <==> (first.contains(l) || exists|j: int|
                    0 <= j < k && set_label(#[trigger] sets[j]) == l),
        decreases m - k,
    {
        let ghost before = out@;
        let _ = out.insert(set_text(observed.scanned_sets.at(k)));
        k += 1;
        assert forall|l: Seq<char>| #[trigger] out@.contains(l) implies (first.contains(l)
            || exists|j: int| 0 <= j < k && set_label(#[trigger] sets[j]) == l) by {
            if before.contains(l) {
                if !first.contains(l) {
                    let j = choose|j: int| 0 <= j < k - 1 && set_label(#[trigger] sets[j]) == l;
                    assert(set_label(sets[j]) == l);
                }
            } else {
                assert(set_label(sets[k - 1]) == l);
            }
        }
    }
    proof {
        assert forall|l: Seq<char>| #[trigger] out@.contains(l) <==> ((exists|g: GroupIdView|
            #[trigger] observed@.members.contains_key(g) && g.text() == l) || (exists|s: Seq<char>|
            #[trigger] observed@.scanned_sets.contains(s) && set_label(s) == l)) by {
            if exists|j: int| 0 <= j < m && set_label(#[trigger] sets[j]) == l {
                let j = choose|j: int| 0 <= j < m && set_label(#[trigger] sets[j]) == l;
                assert(sets.to_set().contains(sets[j]));
            }
            if exists|s: Seq<char>| #[trigger]
                observed@.scanned_sets.contains(s) && set_label(s) == l {
                let s = choose|s: Seq<char>| #[trigger]
                    observed@.scanned_sets.contains(s) && set_label(s) == l;
                assert(sets.to_set().contains(s));
                let j = choose|j: int| 0 <= j < sets.len() && sets[j] == s;
                assert(set_label(sets[j]) == l);
            }
        }
    }
    out
}

impl NoteLog {
    /// Updates the active set from a pass and returns what changed. Notes of
    /// groups that were not examined in this pass are left as they were. A second
    /// update from the same pass changes nothing and returns nothing, as long as
    /// the notes of the pass agree.
    pub fn update<'a>(&mut self, observed: &'a Observed) -> (r: Vec<NoteEvent<'a>>)
        ensures
            event_views(r@) == note_events(old(self)@, observed@),
            final(self)@ == active_after(old(self)@, observed@),
            old(self)@.dom().finite(),
            final(self)@.dom().finite(),
            consistent(observed@.notes) ==> note_events(final(self)@, observed@).len() == 0,
            consistent(observed@.notes) ==> active_after(final(self)@, observed@) == final(self)@,
    {
        let ghost o = observed@;
        let ghost active = self@;
        let mut events: Vec<NoteEvent<'a>> = Vec::new();
        let mut current: Table<NoteKey, String> = Table::new();
        let mut labels = scanned_labels(observed);
        let ghost scanned = labels@;
        let mut i: usize = 0;
        assert(event_views(events@) =~= raised(active, o.notes.take(0)));
        while i < observed.notes.len()
            invariant
                i <= observed.notes@.len(),
                o == observed@,
                o.notes == note_views(observed.notes@),
                active == self.active@,
                current@ == noted(o.notes.take(i as int)),
                event_views(events@) == raised(active, o.notes.take(i as int)),
                forall|l: Seq<char>| #[trigger]
                    labels@.contains(l) <==> (scanned.contains(l) || exists|j: int|
                        0 <= j < i && (#[trigger] o.notes[j]).key().group == l),
            decreases observed.notes@.len() - i,
        {
            let note = &observed.notes[i];
            let ghost labels_before = labels@;
            let ghost events_before = event_views(events@);
            proof {
                assert(o.notes.take(i + 1).drop_last() =~= o.notes.take(i as int));
                assert(o.notes.take(i + 1).last() == note@);
                assert(o.notes[i as int] == note@);
            }
            let (key, detail) = note_identity(note);
            let _ = labels.insert(key.group.clone());
            let known = match self.active.get(&key) {
                Some(before) => crate::text::same(before.as_str(), detail.as_str()),
                None => false,
            };
            if !known {
                events.push(NoteEvent::Raised(note));
                assert(event_views(events@) =~= events_before.push(NoteEventView::Raised(note@)));
            }
            let _ = current.insert(key, detail);
            i += 1;
            assert forall|l: Seq<char>| #[trigger] labels@.contains(l) implies (scanned.contains(l)
                || exists|j: int| 0 <= j < i && (#[trigger] o.notes[j]).key().group == l) by {
                if labels_before.contains(l) {
                    if !scanned.contains(l) {
                        let j = choose|j: int|
                            0 <= j < i - 1 && (#[trigger] o.notes[j]).key().group == l;
                        assert(o.notes[j].key().group == l);
                    }
                } else {
                    assert(o.notes[i - 1].key().group == l);
                }
            }
        }
        assert(o.notes.take(o.notes.len() as int) =~= o.notes);
        assert(forall|l: Seq<char>| #[trigger] labels@.contains(l) <==> examined(o, l));
        let ghost new = current@;
        let ghost raised_events = event_views(events@);
        let n: usize = self.active.len();
        let ghost keys = self.active.keys();
        proof {
            vstd::seq_lib::seq_to_set_is_finite(keys);
            lemma_active_finite(active, o);
            if consistent(o.notes) {
                law_persistent_notes_are_reported_once(active, o);
            }
        }
        let mut k: usize = 0;
        assert(raised_events =~= raised_events + cleared(o, keys.take(0)));
        while k < n
            invariant
                k <= n,
                n == keys.len(),
                keys == self.active.keys(),
                active == self.active@,
                crate::order::ascending::<NoteKey>(keys),
                new == noted(o.notes),
                forall|l: Seq<char>| #[trigger] labels@.contains(l) <==> examined(o, l),
                event_views(events@) == raised_events + cleared(o, keys.take(k as int)),
                forall|x: NoteKeyView| #[trigger]
                    current@.contains_key(x) <==> (new.contains_key(x) || (!examined(o, x.group)
                        && exists|j: int| 0 <= j < k && keys[j] == x)),
                forall|x: NoteKeyView| #[trigger]
                    current@.contains_key(x) ==> current@[x] == (if new.contains_key(x) {
                        new[x]
                    } else {
                        active[x]
                    }),
            decreases n - k,
        {
            let key = self.active.key_at(k);
            let ghost before = current@;
            let ghost events_before = event_views(events@);
            proof {
                assert(keys.take(k + 1).drop_last() =~= keys.take(k as int));
                assert(keys.take(k + 1).last() == key@);
                crate::order::lemma_ascending_distinct::<NoteKey>(keys);
            }
            if !current.contains_key(key) {
                if labels.contains(&key.group) {
                    events.push(
                        NoteEvent::Cleared {
                            group: key.group.clone(),
                            subject: key.subject.clone(),
                        },
                    );
                    assert(event_views(events@) =~= events_before.push(
                        NoteEventView::Cleared(key@),
                    ));
                } else {
                    let _ = current.insert(key.clone(), self.active.value_at(k).clone());
                }
            }
            k += 1;
            assert(event_views(events@) =~= raised_events + cleared(o, keys.take(k as int)));
            assert forall|x: NoteKeyView| #[trigger] current@.contains_key(x) implies (
            new.contains_key(x) || (!examined(o, x.group) && exists|j: int|
                0 <= j < k && keys[j] == x)) by {
                if before.contains_key(x) && !new.contains_key(x) {
                    let j = choose|j: int| 0 <= j < k - 1 && keys[j] == x;
                    assert(keys[j] == x);
                } else if !before.contains_key(x) {
                    assert(keys[k - 1] == x);
                }
            }
            assert forall|x: NoteKeyView| (new.contains_key(x) || (!examined(o, x.group)
                && exists|j: int| 0 <= j < k && keys[j] == x)) implies #[trigger] current@.contains_key(x) by {
                if !new.contains_key(x) {
                    let j = choose|j: int| 0 <= j < k && keys[j] == x;
                    if j < k - 1 {
                        assert(before.contains_key(x));
                    }
                }
            }
        }
        proof {
            assert(keys.take(keys.len() as int) =~= keys);
            assert forall|x: NoteKeyView| active.contains_key(x) implies (exists|j: int|
                0 <= j < n && keys[j] == x) by {
                assert(keys.to_set().contains(x));
            }
            assert forall|x: NoteKeyView| (exists|j: int| 0 <= j < n && keys[j] == x) implies #[trigger] active.contains_key(x) by {
                let j = choose|j: int| 0 <= j < n && keys[j] == x;
                assert(keys.to_set().contains(keys[j]));
            }
            assert(current@ =~= active_after(active, o));
        }
        self.active = current;
        events
    }
}

// What a pass logs.

/// A log record.
pub open spec fn log_record(severity: Severity, fields: Seq<crate::logging::LogFieldView>) -> LogRecordView {
    LogRecordView { severity, fields }
}

/// The views of a list of log records.
pub open spec fn record_views(records: Seq<LogRecord>) -> Seq<LogRecordView> {
    records.map_values(|r: LogRecord| r@)
}

fn entry(severity: Severity, op: &str, group: &str) -> (r: LogRecord)
    ensures
        r@ == log_record(severity, seq![field("op"@, op@), field("group"@, group@)]),
{
    let mut r = LogRecord::new(severity);
    r.add("op", op);
    r.add("group", group);
    assert(r@.fields =~= seq![field("op"@, op@), field("group"@, group@)]);
    r
}

/// What is logged when a note is raised.
pub open spec fn note_record(note: NoteView, trigger: Trigger) -> LogRecordView {
    match note {
        NoteView::Rejected { .. } | NoteView::InterpolationFailed { .. }
        | NoteView::SetEntryRejected { .. } => log_record(
            Severity::Warn,
            seq![
                field("op"@, "reject"@),
                field("group"@, note.key().group),
                field("name"@, note.key().subject),
                field("trigger"@, trigger.text()),
                field("reason"@, note.detail()),
            ],
        ),
        NoteView::MembershipDeleted { .. } => log_record(
            Severity::Error,
            seq![
                field("op"@, "degrade"@),
                field("group"@, note.key().group),
                field("trigger"@, trigger.text()),
                field(
                    "msg"@,
                    "membership directory has been deleted; keeping existing mounts and making no changes to this group until configuration is reloaded"@,
                ),
            ],
        ),
        NoteView::SetRootDeleted { .. } => log_record(
            Severity::Error,
            seq![
                field("op"@, "degrade"@),
                field("group"@, note.key().group),
                field("trigger"@, trigger.text()),
                field(
                    "msg"@,
                    "group set membership root has been deleted; keeping existing mounts and making no changes to this set until configuration is reloaded"@,
                ),
            ],
        ),
        NoteView::MembershipUnreadable { .. } => log_record(
            Severity::Error,
            seq![
                field("op"@, "scan"@),
                field("group"@, note.key().group),
                field("trigger"@, trigger.text()),
                field("result"@, "failed"@),
                field("error"@, note.detail()),
                field("msg"@, "membership directory unreadable; group left unchanged"@),
            ],
        ),
        NoteView::SetRootUnreadable { .. } => log_record(
            Severity::Error,
            seq![
                field("op"@, "scan"@),
                field("group"@, note.key().group),
                field("trigger"@, trigger.text()),
                field("result"@, "failed"@),
                field("error"@, note.detail()),
                field("msg"@, "group set membership root unreadable; set left unchanged"@),
            ],
        ),
    }
}

fn log_note(note: &Note, trigger: Trigger) -> (r: LogRecord)
    ensures
        r@ == note_record(note@, trigger),
{
    let (key, detail) = note_identity(note);
    let group = key.group.as_str();
    match note {
        Note::Rejected { .. } | Note::InterpolationFailed { .. } | Note::SetEntryRejected { .. } => {
            let mut r = entry(Severity::Warn, "reject", group);
            r.add("name", key.subject.as_str());
            r.add("trigger", trigger.as_str());
            r.add("reason", detail.as_str());
            assert(r@.fields =~= note_record(note@, trigger).fields);
            r
        },
        Note::MembershipDeleted { .. } => {
            let mut r = entry(Severity::Error, "degrade", group);
            r.add("trigger", trigger.as_str());
            r.add(
                "msg",
                "membership directory has been deleted; keeping existing mounts and making no changes to this group until configuration is reloaded",
            );
            assert(r@.fields =~= note_record(note@, trigger).fields);
            r
        },
        Note::SetRootDeleted { .. } => {
            let mut r = entry(Severity::Error, "degrade", group);
            r.add("trigger", trigger.as_str());
            r.add(
                "msg",
                "group set membership root has been deleted; keeping existing mounts and making no changes to this set until configuration is reloaded",
            );
            assert(r@.fields =~= note_record(note@, trigger).fields);
            r
        },
        Note::MembershipUnreadable { .. } => {
            let mut r = entry(Severity::Error, "scan", group);
            r.add("trigger", trigger.as_str());
            r.add("result", "failed");
            r.add("error", detail.as_str());
            r.add("msg", "membership directory unreadable; group left unchanged");
            assert(r@.fields =~= note_record(note@, trigger).fields);
            r
        },
        Note::SetRootUnreadable { .. } => {
            let mut r = entry(Severity::Error, "scan", group);
            r.add("trigger", trigger.as_str());
            r.add("result", "failed");
            r.add("error", detail.as_str());
            r.add("msg", "group set membership root unreadable; set left unchanged");
            assert(r@.fields =~= note_record(note@, trigger).fields);
            r
        },
    }
}

/// What is logged of a change.
pub open spec fn event_record(event: NoteEventView, trigger: Trigger) -> LogRecordView {
    match event {
        NoteEventView::Raised(note) => note_record(note, trigger),
        NoteEventView::Cleared(key) => if key.subject.len() == 0 {
            log_record(
                Severity::Info,
                seq![
                    field("op"@, "scan"@),
                    field("group"@, key.group),
                    field("trigger"@, trigger.text()),
                    field("result"@, "ok"@),
                    field("msg"@, "membership directory readable again"@),
                ],
            )
        } else {
            log_record(
                Severity::Info,
                seq![
                    field("op"@, "reject_cleared"@),
                    field("group"@, key.group),
                    field("name"@, key.subject),
                    field("trigger"@, trigger.text()),
                    field("msg"@, "membership entry is no longer rejected"@),
                ],
            )
        },
    }
}

fn log_event(event: &NoteEvent<'_>, trigger: Trigger) -> (r: LogRecord)
    ensures
        r@ == event_record(event@, trigger),
{
    match event {
        NoteEvent::Raised(note) => log_note(note, trigger),
        NoteEvent::Cleared { group, subject } => {
            if subject.as_str().is_empty() {
                let mut r = entry(Severity::Info, "scan", group.as_str());
                r.add("trigger", trigger.as_str());
                r.add("result", "ok");
                r.add("msg", "membership directory readable again");
                assert(r@.fields =~= event_record(event@, trigger).fields);
                r
            } else {
                let mut r = entry(Severity::Info, "reject_cleared", group.as_str());
                r.add("name", subject.as_str());
                r.add("trigger", trigger.as_str());
                r.add("msg", "membership entry is no longer rejected");
                assert(r@.fields =~= event_record(event@, trigger).fields);
                r
            }
        },
    }
}

/// What is logged of the hidden entries of a group.
pub open spec fn ignored_record(group: GroupIdView, names: Seq<Seq<char>>, trigger: Trigger) -> LogRecordView {
    log_record(
        Severity::Debug,
        seq![
            field("op"@, "ignore"@),
            field("group"@, group.text()),
            field("trigger"@, trigger.text()),
            field("count"@, decimal(names.len())),
            field("names"@, join(names, ","@)),
            field("msg"@, "hidden membership entries ignored"@),
        ],
    )
}

/// What a pass logs of its observations: every change, then the hidden
/// entries of each group.
pub open spec fn report_records(active: Map<NoteKeyView, Seq<char>>, o: ObservedView, trigger: Trigger) -> Seq<
    LogRecordView,
> {
    note_events(active, o).map_values(|e: NoteEventView| event_record(e, trigger))
        + in_order::<GroupId>(o.ignored.dom()).map_values(
        |g: GroupIdView| ignored_record(g, o.ignored[g], trigger),
    )
}

impl NoteLog {
    /// Updates the active set and gives the log records of the changes, plus
    /// ignored hidden entries at debug level.
    pub fn report(&mut self, observed: &Observed, trigger: Trigger) -> (r: Vec<LogRecord>)
        ensures
            record_views(r@) == report_records(old(self)@, observed@, trigger),
            final(self)@ == active_after(old(self)@, observed@),
            old(self)@.dom().finite(),
            final(self)@.dom().finite(),
    {
        let ghost active = self@;
        let ghost o = observed@;
        let events = self.update(observed);
        let ghost first = note_events(active, o).map_values(
            |e: NoteEventView| event_record(e, trigger),
        );
        let mut out: Vec<LogRecord> = Vec::new();
        let mut i: usize = 0;
        while i < events.len()
            invariant
                i <= events@.len(),
                event_views(events@) == note_events(active, o),
                first == note_events(active, o).map_values(
                    |e: NoteEventView| event_record(e, trigger),
                ),
                record_views(out@) =~= first.take(i as int),
            decreases events@.len() - i,
        {
            let ghost before = record_views(out@);
            assert(event_views(events@)[i as int] == events@[i as int]@);
            let record = log_event(&events[i], trigger);
            let ghost added = record@;
            out.push(record);
            assert(record_views(out@) =~= before.push(added));
            i += 1;
        }
        assert(event_views(events@).len() == events@.len());
        assert(record_views(out@) =~= first);
        let n: usize = observed.ignored.len();
        let ghost keys = observed.ignored.keys();
        let ghost second = keys.map_values(|g: GroupIdView| ignored_record(g, o.ignored[g], trigger));
        let mut k: usize = 0;
        while k < n
            invariant
                k <= n,
                n == keys.len(),
                keys == observed.ignored.keys(),
                o == observed@,
                second == keys.map_values(
                    |g: GroupIdView| ignored_record(g, o.ignored[g], trigger),
                ),
                record_views(out@) =~= first + second.take(k as int),
            decreases n - k,
        {
            let ghost before = record_views(out@);
            let names = &observed.ignored.value_at(k).0;
            let mut record = entry(
                Severity::Debug,
                "ignore",
                observed.ignored.key_at(k).text().as_str(),
            );
            record.add("trigger", trigger.as_str());
            record.add("count", decimal_text(names.len() as u64).as_str());
            record.add("names", join_texts(names, ",").as_str());
            record.add("msg", "hidden membership entries ignored");
            proof {
                assert(texts(names@).len() == names@.len());
                assert(record@.fields =~= ignored_record(
                    keys[k as int],
                    o.ignored[keys[k as int]],
                    trigger,
                ).fields);
            }
            let ghost added = record@;
            out.push(record);
            assert(record_views(out@) =~= before.push(added));
            k += 1;
        }
        assert(record_views(out@) =~= first + second);
        out
    }
}

/// What is logged of a finding.
pub open spec fn finding_record(finding: FindingView, trigger: Trigger) -> LogRecordView {
    match finding {
        FindingView::Conflict { key, target, kind } => log_record(
            Severity::Warn,
            seq![
                field("op"@, "conflict"@),
                field("group"@, key.group.text()),
                field("name"@, key.name),
                field("target"@, target.text()),
                field("trigger"@, trigger.text()),
                field(
                    "reason"@,
                    match kind {
                        ConflictKind::ForeignMount =>
                            "mount present at target but not recorded in state; not touching foreign mount"@,
                        ConflictKind::TargetReplaced =>
                            "mount at target is not the recorded mount; not touching it"@,
                    },
                ),
            ],
        ),
        FindingView::SourceUnavailable { key, source, reason } => log_record(
            Severity::Warn,
            seq![
                field("op"@, "skip"@),
                field("group"@, key.group.text()),
                field("name"@, key.name),
                field("source"@, source.text()),
                field("trigger"@, trigger.text()),
                field("reason"@, reason),
            ],
        ),
        FindingView::TargetUnavailable { key, target, reason } => log_record(
            Severity::Warn,
            seq![
                field("op"@, "skip"@),
                field("group"@, key.group.text()),
                field("name"@, key.name),
                field("target"@, target.text()),
                field("trigger"@, trigger.text()),
                field("reason"@, "target cannot be inspected: "@ + reason),
            ],
        ),
        FindingView::TargetCollision { target, members, kept } => log_record(
            Severity::Warn,
            seq![
                field("op"@, "conflict"@),
                field("target"@, target.text()),
                field("trigger"@, trigger.text()),
                field("members"@, join(members.map_values(|k: KeyView| k.text()), ","@)),
                field(
                    "kept"@,
                    match kept {
                        Some(k) => k.text(),
                        None => "none"@,
                    },
                ),
                field("reason"@, "several members resolve to the same target"@),
            ],
        ),
        FindingView::RelocationBlocked { key, old_target } => log_record(
            Severity::Warn,
            seq![
                field("op"@, "skip"@),
                field("group"@, key.group.text()),
                field("name"@, key.name),
                field("target"@, old_target.text()),
                field("trigger"@, trigger.text()),
                field(
                    "reason"@,
                    "member moved but its existing mount cannot be verified; not relocating"@,
                ),
            ],
        ),
    }
}

fn key_texts(keys: &Vec<RecordKey>) -> (r: Vec<String>)
    ensures
        texts(r@) == key_views(keys@).map_values(|k: KeyView| k.text()),
{
    let mut out: Vec<String> = Vec::new();
    let ghost all = key_views(keys@).map_values(|k: KeyView| k.text());
    let mut i: usize = 0;
    while i < keys.len()
        invariant
            i <= keys@.len(),
            all == key_views(keys@).map_values(|k: KeyView| k.text()),
            texts(out@) =~= all.take(i as int),
        decreases keys@.len() - i,
    {
        let ghost before = texts(out@);
        let text = keys[i].text();
        let ghost added = text@;
        out.push(text);
        assert(texts(out@) =~= before.push(added));
        i += 1;
    }
    assert(texts(out@) =~= all);
    out
}

fn member_entry(op: &str, key: &RecordKey) -> (r: LogRecord)
    ensures
        r@ == log_record(
            Severity::Warn,
            seq![
                field("op"@, op@),
                field("group"@, key@.group.text()),
                field("name"@, key@.name),
            ],
        ),
{
    let mut r = entry(Severity::Warn, op, key.group.text().as_str());
    r.add("name", key.name.as_str());
    assert(r@.fields =~= seq![
        field("op"@, op@),
        field("group"@, key@.group.text()),
        field("name"@, key@.name),
    ]);
    r
}

fn log_finding(finding: &Finding, trigger: Trigger) -> (r: LogRecord)
    ensures
        r@ == finding_record(finding@, trigger),
{
    match finding {
        Finding::Conflict { key, target, kind } => {
            let mut r = member_entry("conflict", key);
            r.add("target", target.text().as_str());
            r.add("trigger", trigger.as_str());
            r.add(
                "reason",
                match kind {
                    ConflictKind::ForeignMount =>
                        "mount present at target but not recorded in state; not touching foreign mount",
                    ConflictKind::TargetReplaced =>
                        "mount at target is not the recorded mount; not touching it",
                },
            );
            assert(r@.fields =~= finding_record(finding@, trigger).fields);
            r
        },
        Finding::SourceUnavailable { key, source, reason } => {
            let mut r = member_entry("skip", key);
            r.add("source", source.text().as_str());
            r.add("trigger", trigger.as_str());
            r.add("reason", reason.as_str());
            assert(r@.fields =~= finding_record(finding@, trigger).fields);
            r
        },
        Finding::TargetUnavailable { key, target, reason } => {
            let mut r = member_entry("skip", key);
            r.add("target", target.text().as_str());
            r.add("trigger", trigger.as_str());
            let mut text = String::new();
            text.append("target cannot be inspected: ");
            text.append(reason.as_str());
            assert(text@ =~= "target cannot be inspected: "@ + reason@);
            r.add("reason", text.as_str());
            assert(r@.fields =~= finding_record(finding@, trigger).fields);
            r
        },
        Finding::TargetCollision { target, members, kept } => {
            let mut r = LogRecord::new(Severity::Warn);
            r.add("op", "conflict");
            r.add("target", target.text().as_str());
            r.add("trigger", trigger.as_str());
            let names = key_texts(members);
            r.add("members", join_texts(&names, ",").as_str());
            let kept_text = match kept {
                Some(k) => k.text(),
                None => "none".to_owned(),
            };
            r.add("kept", kept_text.as_str());
            r.add("reason", "several members resolve to the same target");
            assert(r@.fields =~= finding_record(finding@, trigger).fields);
            r
        },
        Finding::RelocationBlocked { key, old_target } => {
            let mut r = member_entry("skip", key);
            r.add("target", old_target.text().as_str());
            r.add("trigger", trigger.as_str());
            r.add(
                "reason",
                "member moved but its existing mount cannot be verified; not relocating",
            );
            assert(r@.fields =~= finding_record(finding@, trigger).fields);
            r
        },
    }
}

/// The log records of planning findings.
pub fn log_findings(findings: &Vec<Finding>, trigger: Trigger) -> (r: Vec<LogRecord>)
    ensures
        record_views(r@) == finding_views(findings@).map_values(
            |f: FindingView| finding_record(f, trigger),
        ),
{
    let mut out: Vec<LogRecord> = Vec::new();
    let ghost all = finding_views(findings@).map_values(
        |f: FindingView| finding_record(f, trigger),
    );
    let mut i: usize = 0;
    while i < findings.len()
        invariant
            i <= findings@.len(),
            all == finding_views(findings@).map_values(
                |f: FindingView| finding_record(f, trigger),
            ),
            record_views(out@) =~= all.take(i as int),
        decreases findings@.len() - i,
    {
        let ghost before = record_views(out@);
        assert(finding_views(findings@)[i as int] == findings@[i as int]@);
        let record = log_finding(&findings[i], trigger);
        let ghost added = record@;
        out.push(record);
        assert(record_views(out@) =~= before.push(added));
        i += 1;
    }
    assert(record_views(out@) =~= all);
    out
}

// Laws.

/// Whether the notes of a pass agree: two notes about the same thing say the
/// same.
pub open spec fn consistent(notes: Seq<NoteView>) -> bool {
    forall|i: int, j: int|
        #![trigger notes[i], notes[j]]
        0 <= i < notes.len() && 0 <= j < notes.len() && notes[i].key() == notes[j].key()
            ==> notes[i].detail() == notes[j].detail()
}

proof fn lemma_noted(notes: Seq<NoteView>, i: int)
    requires
        consistent(notes),
        0 <= i < notes.len(),
    ensures
        noted(notes).contains_key(notes[i].key()),
        noted(notes)[notes[i].key()] == notes[i].detail(),
    decreases notes.len(),
{
    if i < notes.len() - 1 {
        let rest = notes.drop_last();
        assert forall|a: int, b: int|
            #![trigger rest[a], rest[b]]
            0 <= a < rest.len() && 0 <= b < rest.len() && rest[a].key() == rest[b].key() implies rest[a].detail()
            == rest[b].detail() by {
            assert(notes[a].detail() == notes[b].detail());
        }
        lemma_noted(rest, i);
        assert(rest[i] == notes[i]);
        assert(notes[notes.len() - 1] == notes.last());
    }
}

proof fn lemma_nothing_raised(active: Map<NoteKeyView, Seq<char>>, notes: Seq<NoteView>)
    requires
        forall|i: int| 0 <= i < notes.len() ==> already_reported(active, #[trigger] notes[i]),
    ensures
        raised(active, notes).len() == 0,
    decreases notes.len(),
{
    if notes.len() > 0 {
        let rest = notes.drop_last();
        assert forall|i: int| 0 <= i < rest.len() implies already_reported(
            active,
            #[trigger] rest[i],
        ) by {
            assert(rest[i] == notes[i]);
        }
        lemma_nothing_raised(active, rest);
        assert(notes[notes.len() - 1] == notes.last());
    }
}

proof fn lemma_nothing_cleared(o: ObservedView, keys: Seq<NoteKeyView>)
    requires
        forall|i: int| 0 <= i < keys.len() ==> !is_cleared(o, #[trigger] keys[i]),
    ensures
        cleared(o, keys).len() == 0,
    decreases keys.len(),
{
    if keys.len() > 0 {
        let rest = keys.drop_last();
        assert forall|i: int| 0 <= i < rest.len() implies !is_cleared(o, #[trigger] rest[i]) by {
            assert(rest[i] == keys[i]);
        }
        lemma_nothing_cleared(o, rest);
        assert(keys[keys.len() - 1] == keys.last());
    }
}

/// A persistent problem is reported once: a pass that observes what the pass
/// before it observed reports nothing. The active notes of every log are finite
/// (`NoteLog::update`).
pub proof fn law_persistent_notes_are_reported_once(
    active: Map<NoteKeyView, Seq<char>>,
    o: ObservedView,
)
    requires
        active.dom().finite(),
        consistent(o.notes),
    ensures
        note_events(active_after(active, o), o).len() == 0,
        active_after(active_after(active, o), o) == active_after(active, o),
{
    let after = active_after(active, o);
    assert forall|i: int| 0 <= i < o.notes.len() implies already_reported(
        after,
        #[trigger] o.notes[i],
    ) by {
        lemma_noted(o.notes, i);
    }
    lemma_nothing_raised(after, o.notes);
    lemma_active_finite(active, o);
    crate::order::lemma_in_order_finite::<NoteKey>(after.dom());
    let keys = in_order::<NoteKey>(after.dom());
    assert forall|i: int| 0 <= i < keys.len() implies !is_cleared(o, #[trigger] keys[i]) by {
        assert(keys.to_set().contains(keys[i]));
    }
    lemma_nothing_cleared(o, keys);
    assert(active_after(after, o) =~= after);
}

proof fn lemma_noted_finite(notes: Seq<NoteView>)
    ensures
        noted(notes).dom().finite(),
    decreases notes.len(),
{
    if notes.len() > 0 {
        lemma_noted_finite(notes.drop_last());
    }
}

proof fn lemma_active_finite(active: Map<NoteKeyView, Seq<char>>, o: ObservedView)
    requires
        active.dom().finite(),
    ensures
        active_after(active, o).dom().finite(),
{
    let after = active_after(active, o);
    lemma_noted_finite(o.notes);
    assert(after.dom().subset_of(active.dom().union(noted(o.notes).dom())));
    vstd::set_lib::lemma_set_subset_finite(active.dom().union(noted(o.notes).dom()), after.dom());
}

/// Notes on a group that was not examined in a pass stay as they were, and
/// nothing is reported of them.
pub proof fn law_unexamined_groups_keep_their_notes(
    active: Map<NoteKeyView, Seq<char>>,
    o: ObservedView,
    key: NoteKeyView,
)
    requires
        active.contains_key(key),
        !examined(o, key.group),
    ensures
        active_after(active, o).contains_key(key),
        active_after(active, o)[key] == active[key],
        !is_cleared(o, key),
{
    if noted(o.notes).contains_key(key) {
        lemma_noted_examined(o, o.notes, key);
    }
}

proof fn lemma_noted_examined(o: ObservedView, notes: Seq<NoteView>, key: NoteKeyView)
    requires
        noted(notes).contains_key(key),
    ensures
        exists|i: int| 0 <= i < notes.len() && (#[trigger] notes[i]).key() == key,
    decreases notes.len(),
{
    if notes.len() > 0 {
        if notes.last().key() == key {
            assert(notes[notes.len() - 1].key() == key);
        } else {
            lemma_noted_examined(o, notes.drop_last(), key);
            let i = choose|i: int|
                0 <= i < notes.len() - 1 && (#[trigger] notes.drop_last()[i]).key() == key;
            assert(notes[i].key() == key);
        }
    }
}

proof fn lemma_raised(active: Map<NoteKeyView, Seq<char>>, notes: Seq<NoteView>, note: NoteView)
    ensures
        raised(active, notes).contains(NoteEventView::Raised(note)) <==> notes.contains(note) && !(
        active.contains_key(note.key()) && active[note.key()] == note.detail()),
        forall|i: int|
            0 <= i < raised(active, notes).len() ==> (#[trigger] raised(active, notes)[i]) is Raised,
    decreases notes.len(),
{
    let event = NoteEventView::Raised(note);
    if notes.len() > 0 {
        let front = notes.drop_last();
        let before = raised(active, front);
        let all = raised(active, notes);
        lemma_raised(active, front, note);
        assert(notes[notes.len() - 1] == notes.last());
        if front.contains(note) {
            let i = choose|i: int| 0 <= i < front.len() && front[i] == note;
            assert(notes[i] == note);
        }
        if notes.contains(note) && note != notes.last() {
            let i = choose|i: int| 0 <= i < notes.len() && notes[i] == note;
            assert(front[i] == note);
        }
        if before.contains(event) {
            let i = choose|i: int| 0 <= i < before.len() && before[i] == event;
            assert(all[i] == event);
        }
        if all.contains(event) {
            let i = choose|i: int| 0 <= i < all.len() && all[i] == event;
            if i < before.len() {
                assert(before[i] == event);
            }
        }
        if all.len() > before.len() {
            assert(all[before.len() as int] == NoteEventView::Raised(notes.last()));
        }
        assert forall|i: int| 0 <= i < all.len() implies (#[trigger] all[i]) is Raised by {
            if i < before.len() {
                assert(all[i] == before[i]);
            }
        }
    } else {
        assert(!raised(active, notes).contains(event));
        assert(!notes.contains(note));
    }
}

proof fn lemma_cleared(o: ObservedView, keys: Seq<NoteKeyView>, key: NoteKeyView)
    ensures
        cleared(o, keys).contains(NoteEventView::Cleared(key)) <==> keys.contains(key)
            && is_cleared(o, key),
        forall|i: int|
            0 <= i < cleared(o, keys).len() ==> (#[trigger] cleared(o, keys)[i]) is Cleared,
    decreases keys.len(),
{
    let event = NoteEventView::Cleared(key);
    if keys.len() > 0 {
        let front = keys.drop_last();
        let before = cleared(o, front);
        let all = cleared(o, keys);
        lemma_cleared(o, front, key);
        assert(keys[keys.len() - 1] == keys.last());
        if front.contains(key) {
            let i = choose|i: int| 0 <= i < front.len() && front[i] == key;
            assert(keys[i] == key);
        }
        if keys.contains(key) && key != keys.last() {
            let i = choose|i: int| 0 <= i < keys.len() && keys[i] == key;
            assert(front[i] == key);
        }
        if before.contains(event) {
            let i = choose|i: int| 0 <= i < before.len() && before[i] == event;
            assert(all[i] == event);
        }
        if all.contains(event) {
            let i = choose|i: int| 0 <= i < all.len() && all[i] == event;
            if i < before.len() {
                assert(before[i] == event);
            }
        }
        if all.len() > before.len() {
            assert(all[before.len() as int] == NoteEventView::Cleared(keys.last()));
        }
        assert forall|i: int| 0 <= i < all.len() implies (#[trigger] all[i]) is Cleared by {
            if i < before.len() {
                assert(all[i] == before[i]);
            }
        }
    } else {
        assert(!cleared(o, keys).contains(event));
        assert(!keys.contains(key));
    }
}

proof fn lemma_noted_keys(notes: Seq<NoteView>, key: NoteKeyView)
    ensures
        noted(notes).contains_key(key) <==> exists|i: int|
            0 <= i < notes.len() && (#[trigger] notes[i]).key() == key,
    decreases notes.len(),
{
    if notes.len() > 0 {
        let front = notes.drop_last();
        lemma_noted_keys(front, key);
        assert(notes[notes.len() - 1] == notes.last());
        if noted(front).contains_key(key) {
            let i = choose|i: int| 0 <= i < front.len() && (#[trigger] front[i]).key() == key;
            assert(notes[i] == front[i]);
        }
        if exists|i: int| 0 <= i < notes.len() && (#[trigger] notes[i]).key() == key {
            let i = choose|i: int| 0 <= i < notes.len() && (#[trigger] notes[i]).key() == key;
            if i < front.len() {
                assert(front[i].key() == key);
            }
        }
    }
}

/// A note is reported exactly if it is made in the pass and was not made
/// before with the same words; so every new problem is told, and every problem
/// that changed.
pub proof fn law_new_notes_are_reported(
    active: Map<NoteKeyView, Seq<char>>,
    o: ObservedView,
    note: NoteView,
)
    requires
        active.dom().finite(),
    ensures
        note_events(active, o).contains(NoteEventView::Raised(note)) <==> o.notes.contains(note)
            && !(active.contains_key(note.key()) && active[note.key()] == note.detail()),
{
    let keys = in_order::<NoteKey>(active.dom());
    let a = raised(active, o.notes);
    let b = cleared(o, keys);
    let event = NoteEventView::Raised(note);
    lemma_raised(active, o.notes, note);
    lemma_cleared(o, keys, note.key());
    let all = a + b;
    if a.contains(event) {
        let i = choose|i: int| 0 <= i < a.len() && a[i] == event;
        assert(all[i] == event);
    }
    if all.contains(event) {
        let i = choose|i: int| 0 <= i < all.len() && all[i] == event;
        if i < a.len() {
            assert(a[i] == event);
        } else {
            assert(b[i - a.len()] == event);
        }
    }
}

/// A problem is reported as over exactly if it was active, its group was looked
/// at in the pass, and the pass makes no note of it any more. A group was looked
/// at if it was scanned, if its set was, or if there is a note on it.
pub proof fn law_problems_that_are_over_are_reported(
    active: Map<NoteKeyView, Seq<char>>,
    o: ObservedView,
    key: NoteKeyView,
)
    requires
        active.dom().finite(),
    ensures
        note_events(active, o).contains(NoteEventView::Cleared(key)) <==> {
            &&& active.contains_key(key)
            &&& forall|i: int| 0 <= i < o.notes.len() ==> (#[trigger] o.notes[i]).key() != key
            &&& {
                ||| exists|g: GroupIdView| #[trigger] o.members.contains_key(g) && g.text()
                    == key.group
                ||| exists|s: Seq<char>| #[trigger] o.scanned_sets.contains(s) && set_label(s)
                    == key.group
                ||| exists|i: int|
                    0 <= i < o.notes.len() && (#[trigger] o.notes[i]).key().group == key.group
            }
        },
{
    let keys = in_order::<NoteKey>(active.dom());
    crate::order::lemma_in_order_finite::<NoteKey>(active.dom());
    assert(keys.to_set().contains(key) <==> keys.contains(key));
    let a = raised(active, o.notes);
    let b = cleared(o, keys);
    let event = NoteEventView::Cleared(key);
    lemma_raised(active, o.notes, arbitrary());
    lemma_cleared(o, keys, key);
    lemma_noted_keys(o.notes, key);
    let all = a + b;
    if b.contains(event) {
        let i = choose|i: int| 0 <= i < b.len() && b[i] == event;
        assert(all[a.len() + i] == event);
    }
    if all.contains(event) {
        let i = choose|i: int| 0 <= i < all.len() && all[i] == event;
        if i < a.len() {
            assert(a[i] is Raised);
        } else {
            assert(b[i - a.len()] == event);
        }
    }
}

/// A note is about the entry, or else the group or set, that it names: two
/// notes are about the same thing only if they name the same one.
pub proof fn law_notes_are_about_what_they_name(note: NoteView)
    ensures
        match note {
            NoteView::Rejected { group, rejection } => note.key().group == group.text()
                && note.key().subject == rejection.display_name && note.detail()
                == rejection.reason.text(),
            NoteView::InterpolationFailed { group, name, field, error } => note.key().group
                == group.text() && note.key().subject == name,
            NoteView::SetEntryRejected { set, rejection } => note.key().group == set + "/*"@
                && note.key().subject == rejection.display_name && note.detail()
                == rejection.reason.text(),
            NoteView::SetRootDeleted { set } => note.key().group == set + "/*"@
                && note.key().subject.len() == 0,
            NoteView::SetRootUnreadable { set, error } => note.key().group == set + "/*"@
                && note.key().subject.len() == 0 && note.detail() == error,
            NoteView::MembershipDeleted { group } => note.key().group == group.text()
                && note.key().subject.len() == 0,
            NoteView::MembershipUnreadable { group, error } => note.key().group == group.text()
                && note.key().subject.len() == 0 && note.detail() == error,
        },
{
}

/// Every finding is logged at least as a warning, with the operation it stands
/// for, the member it is about and why the pass ran.
pub proof fn law_findings_are_logged(finding: FindingView, trigger: Trigger)
    ensures
        ({
            let log = finding_record(finding, trigger);
            &&& log.severity == Severity::Warn || log.severity == Severity::Error
            &&& log.fields.contains(field("trigger"@, trigger.text()))
            &&& match finding {
                FindingView::Conflict { key, target, kind } => log.fields[0] == field(
                    "op"@,
                    "conflict"@,
                ) && log.fields[1] == field("group"@, key.group.text()) && log.fields[2] == field(
                    "name"@,
                    key.name,
                ) && log.fields.contains(field("target"@, target.text())),
                FindingView::SourceUnavailable { key, source, reason } => log.fields[1] == field(
                    "group"@,
                    key.group.text(),
                ) && log.fields[2] == field("name"@, key.name) && log.fields.contains(
                    field("source"@, source.text()),
                ) && log.fields.contains(field("reason"@, reason)),
                FindingView::TargetUnavailable { key, target, reason } => log.fields[1] == field(
                    "group"@,
                    key.group.text(),
                ) && log.fields[2] == field("name"@, key.name) && log.fields.contains(
                    field("target"@, target.text()),
                ) && log.fields.contains(
                    field("reason"@, "target cannot be inspected: "@ + reason),
                ),
                FindingView::RelocationBlocked { key, old_target } => log.fields[1] == field(
                    "group"@,
                    key.group.text(),
                ) && log.fields[2] == field("name"@, key.name),
                FindingView::TargetCollision { target, members, kept } => log.fields.contains(
                    field("target"@, target.text()),
                ),
            }
        }),
{
    let fields = finding_record(finding, trigger).fields;
    assert(fields.len() >= 1 ==> fields.contains(fields[0]));
    assert(fields.len() >= 2 ==> fields.contains(fields[1]));
    assert(fields.len() >= 3 ==> fields.contains(fields[2]));
    assert(fields.len() >= 4 ==> fields.contains(fields[3]));
    assert(fields.len() >= 5 ==> fields.contains(fields[4]));
    assert(fields.len() >= 6 ==> fields.contains(fields[5]));
}

/// What is logged of a note names its group and why the pass ran. An entry is
/// warned of by its name and the reason; that a directory is gone or cannot be
/// read is an error, and why it cannot be read is told.
pub proof fn law_notes_are_logged(note: NoteView, trigger: Trigger)
    ensures
        ({
            let log = note_record(note, trigger);
            &&& log.severity == Severity::Warn || log.severity == Severity::Error
            &&& log.severity == Severity::Warn <==> (note is Rejected || note is InterpolationFailed
                || note is SetEntryRejected)
            &&& log.fields.contains(field("trigger"@, trigger.text()))
            &&& match note {
                NoteView::Rejected { group, rejection } => log.fields[0] == field("op"@, "reject"@)
                    && log.fields[1] == field("group"@, group.text()) && log.fields[2] == field(
                    "name"@,
                    rejection.display_name,
                ) && log.fields.last() == field("reason"@, rejection.reason.text()),
                NoteView::SetEntryRejected { set, rejection } => log.fields[0] == field(
                    "op"@,
                    "reject"@,
                ) && log.fields[1] == field("group"@, set + "/*"@) && log.fields[2] == field(
                    "name"@,
                    rejection.display_name,
                ) && log.fields.last() == field("reason"@, rejection.reason.text()),
                NoteView::InterpolationFailed { group, name, .. } => log.fields[0] == field(
                    "op"@,
                    "reject"@,
                ) && log.fields[1] == field("group"@, group.text()) && log.fields[2] == field(
                    "name"@,
                    name,
                ),
                NoteView::MembershipDeleted { group } => log.fields[0] == field("op"@, "degrade"@)
                    && log.fields[1] == field("group"@, group.text()),
                NoteView::SetRootDeleted { set } => log.fields[0] == field("op"@, "degrade"@)
                    && log.fields[1] == field("group"@, set + "/*"@),
                NoteView::MembershipUnreadable { group, error } => log.fields[0] == field(
                    "op"@,
                    "scan"@,
                ) && log.fields[1] == field("group"@, group.text()) && log.fields.contains(
                    field("error"@, error),
                ),
                NoteView::SetRootUnreadable { set, error } => log.fields[0] == field("op"@, "scan"@)
                    && log.fields[1] == field("group"@, set + "/*"@) && log.fields.contains(
                    field("error"@, error),
                ),
            }
        }),
{
    let f = note_record(note, trigger).fields;
    assert(f.len() >= 4);
    assert(f.contains(f[2]) && f.contains(f[3]));
    if f.len() > 4 {
        assert(f.contains(f[4]));
    }
}

/// That a problem is over is logged with its group, and with the entry where it
/// was about one.
pub proof fn law_problems_that_are_over_are_logged(key: NoteKeyView, trigger: Trigger)
    ensures
        ({
            let log = event_record(NoteEventView::Cleared(key), trigger);
            &&& log.severity == Severity::Info
            &&& log.fields[1] == field("group"@, key.group)
            &&& log.fields.contains(field("trigger"@, trigger.text()))
            &&& key.subject.len() > 0 ==> log.fields[0] == field("op"@, "reject_cleared"@)
                && log.fields[2] == field("name"@, key.subject)
            &&& key.subject.len() == 0 ==> log.fields[0] == field("op"@, "scan"@)
                && log.fields[3] == field("result"@, "ok"@)
        }),
{
    let f = event_record(NoteEventView::Cleared(key), trigger).fields;
    assert(f.contains(f[2]) && f.contains(f[3]));
}

/// Every event of a pass is logged, and the entries that were ignored in each
/// group are, with their number; first the events, then these.
pub proof fn law_every_event_is_logged(
    active: Map<NoteKeyView, Seq<char>>,
    o: ObservedView,
    trigger: Trigger,
    i: int,
    group: GroupIdView,
)
    requires
        o.ignored.dom().finite(),
    ensures
        ({
            let events = note_events(active, o);
            let logs = report_records(active, o, trigger);
            &&& 0 <= i < events.len() ==> match events[i] {
                NoteEventView::Raised(note) => logs[i] == note_record(note, trigger),
                NoteEventView::Cleared(_) => logs[i] == event_record(events[i], trigger),
            }
            &&& o.ignored.contains_key(group) ==> exists|k: int|
                #![trigger logs[k]]
                events.len() <= k < logs.len() && logs[k].severity == Severity::Debug
                    && logs[k].fields[1] == field("group"@, group.text()) && logs[k].fields[3]
                    == field("count"@, decimal(o.ignored[group].len())) && logs[k].fields[4]
                    == field("names"@, join(o.ignored[group], ","@))
        }),
{
    let events = note_events(active, o);
    let logs = report_records(active, o, trigger);
    let groups = in_order::<GroupId>(o.ignored.dom());
    crate::order::lemma_in_order_finite::<GroupId>(o.ignored.dom());
    if o.ignored.contains_key(group) {
        assert(groups.to_set().contains(group));
        let k = choose|k: int| 0 <= k < groups.len() && groups[k] == group;
        assert(logs[events.len() + k] == ignored_record(group, o.ignored[group], trigger));
    }
}

} // verus!
