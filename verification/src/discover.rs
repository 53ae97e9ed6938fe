//! Discovering the groups of group sets from directory listings.
use vstd::prelude::*;
use vstd::string::*;

use crate::config::{GroupConfig, GroupView};
use crate::membership::{kind_view, EntryKind, EntryView, RejectReason, RejectReasonView, Rejection, RejectionView};
use crate::name::{check_name, display_bytes, escaped_bytes, name_views, valid_name, GroupId, GroupIdView, Name, NameError};
use crate::order::KeySet;
use crate::path::{entry_path, AbsPath};
use crate::reconcile::observe::{add_group, note_views, observe_group, ready_group, GroupScan, Note, NoteView, Observed, ObservedView, Scan, ScanView};
use crate::sets::{set_depth, GroupSetConfig, SetView};
use crate::state::{KeyView, RecordView, State};
use crate::template::{bind_template, bound_template, law_levels_are_substituted, levels_below, substituted, valid_template, InterpolateError, TemplateView};
use crate::text::join;

verus! {

/// An entry of a directory: its name, and its type or why it could not be
/// inspected.
pub type Entry = (Vec<u8>, Result<EntryKind, String>);

/// What came of listing a directory of a group set.
#[derive(Debug)]
pub enum Listing {
    /// Its entries.
    Entries(Vec<Entry>),
    /// It has been deleted.
    Deleted,
    /// It could not be read.
    Unreadable(String),
}

/// The views of a list of entries.
pub open spec fn listed(entries: Seq<Entry>) -> Seq<EntryView> {
    entries.map_values(
        |e: Entry| (EntryView { file_name: e.0@, kind: kind_view(e.1) }),
    )
}

/// What an entry of a set's directory is: a group directory with its name,
/// something to reject, or nothing at all if it is hidden.
pub open spec fn group_entry(entry: EntryView) -> Option<Result<Seq<char>, RejectReasonView>> {
    match check_name(entry.file_name) {
        Err(NameError::LeadingDot) => None,
        Err(e) => Some(Err(RejectReasonView::InvalidName(e))),
        Ok(name) => match entry.kind {
            Err(s) => Some(Err(RejectReasonView::Inaccessible(s))),
            Ok(EntryKind::Directory) => Some(Ok(name)),
            Ok(kind) => Some(Err(RejectReasonView::NotADirectory(kind))),
        },
    }
}

/// The names of the group directories among entries.
pub open spec fn directories_of(entries: Seq<EntryView>) -> Set<Seq<char>>
    decreases entries.len(),
{
    if entries.len() == 0 {
        Set::empty()
    } else {
        let front = directories_of(entries.drop_last());
        match group_entry(entries.last()) {
            Some(Ok(name)) => front.insert(name),
            _ => front,
        }
    }
}

/// The notes about entries that are rejected. They are called by their path
/// beneath the membership root.
pub open spec fn rejected_entries(
    set: Seq<char>,
    prefix: Seq<char>,
    entries: Seq<EntryView>,
) -> Seq<NoteView>
    decreases entries.len(),
{
    if entries.len() == 0 {
        Seq::empty()
    } else {
        let front = rejected_entries(set, prefix, entries.drop_last());
        match group_entry(entries.last()) {
            Some(Err(reason)) => front.push(
                NoteView::SetEntryRejected {
                    set,
                    rejection: RejectionView {
                        display_name: prefix + escaped_bytes(entries.last().file_name),
                        reason,
                    },
                },
            ),
            _ => front,
        }
    }
}

/// The path of a directory beneath the membership root, with `/` behind it.
pub open spec fn prefix_text(levels: Seq<Seq<char>>) -> Seq<char> {
    if levels.len() == 0 {
        Seq::empty()
    } else {
        join(levels, seq!['/']) + seq!['/']
    }
}

/// Whether a group belongs to a set, in a directory beneath the given levels.
pub open spec fn is_beneath(group: GroupIdView, set: Seq<char>, levels: Seq<Seq<char>>) -> bool {
    group.set == Some(set) && levels.is_prefix_of(group.path)
}

/// The groups of a set with recorded mounts, beneath the given levels.
pub open spec fn recorded_beneath(
    state: Map<KeyView, RecordView>,
    set: Seq<char>,
    levels: Seq<Seq<char>>,
) -> Set<GroupIdView> {
    Set::new(
        |g: GroupIdView|
            is_beneath(g, set, levels) && exists|k: KeyView| #[trigger]
                state.contains_key(k) && k.group == g,
    )
}

/// What is observed once the groups beneath some levels of a set must not be
/// touched.
pub open spec fn frozen_beneath(
    o: ObservedView,
    state: Map<KeyView, RecordView>,
    set: Seq<char>,
    levels: Seq<Seq<char>>,
) -> ObservedView {
    ObservedView { frozen: o.frozen.union(recorded_beneath(state, set, levels)), ..o }
}

/// What is observed once a directory of a set was listed. A lost membership
/// root freezes the whole set, and a directory that cannot be read the groups
/// beneath it; a deleted group directory has no groups any more.
pub open spec fn set_listed(
    o: ObservedView,
    state: Map<KeyView, RecordView>,
    set: Seq<char>,
    levels: Seq<Seq<char>>,
    listing: Listing,
) -> ObservedView {
    match listing {
        Listing::Entries(entries) => ObservedView {
            notes: o.notes + rejected_entries(set, prefix_text(levels), listed(entries@)),
            scanned_sets: if levels.len() == 0 {
                o.scanned_sets.insert(set)
            } else {
                o.scanned_sets
            },
            ..o
        },
        Listing::Deleted => if levels.len() == 0 {
            let frozen = frozen_beneath(o, state, set, levels);
            ObservedView { notes: frozen.notes.push(NoteView::SetRootDeleted { set }), ..frozen }
        } else {
            o
        },
        Listing::Unreadable(error) => {
            let frozen = frozen_beneath(o, state, set, levels);
            ObservedView {
                notes: frozen.notes.push(
                    if levels.len() == 0 {
                        NoteView::SetRootUnreadable { set, error: error@ }
                    } else {
                        NoteView::MembershipUnreadable {
                            group: GroupIdView { set: Some(set), path: levels },
                            error: error@,
                        }
                    },
                ),
                ..frozen
            }
        },
    }
}

/// The group directories that a listing shows.
pub open spec fn directories_in(listing: Listing) -> Set<Seq<char>> {
    match listing {
        Listing::Entries(entries) => directories_of(listed(entries@)),
        _ => Set::empty(),
    }
}

fn beneath(group: &GroupId, set: &Name, levels: &Vec<Name>) -> (r: bool)
    ensures
        r == is_beneath(group@, set@, name_views(levels@)),
{
    match group.set() {
        None => return false,
        Some(found) => if !found.same(set) {
            return false;
        },
    }
    let path = group.path();
    let ghost names = name_views(levels@);
    assert(names.len() == levels@.len());
    assert(group@.path.len() == path@.len());
    if levels.len() > path.len() {
        return false;
    }
    let mut i: usize = 0;
    while i < levels.len()
        invariant
            i <= levels@.len() <= path@.len(),
            names == name_views(levels@),
            group@.path == name_views(path@),
            forall|j: int| 0 <= j < i ==> names[j] == #[trigger] group@.path[j],
        decreases levels@.len() - i,
    {
        assert(names[i as int] == levels@[i as int]@);
        assert(group@.path[i as int] == path@[i as int]@);
        if !levels[i].same(&path[i]) {
            assert(names != group@.path.take(names.len() as int)) by {
                if names == group@.path.take(names.len() as int) {
                    assert(names[i as int] == group@.path.take(names.len() as int)[i as int]);
                }
            }
            return false;
        }
        i += 1;
    }
    assert(names =~= group@.path.take(names.len() as int));
    true
}

impl Observed {
    /// Leaves the groups of a set alone that have recorded mounts beneath the
    /// given levels.
    pub fn freeze_beneath(&mut self, state: &State, set: &Name, levels: &Vec<Name>)
        ensures
            final(self)@ == frozen_beneath(old(self)@, state@, set@, name_views(levels@)),
    {
        let n: usize = state.len();
        let ghost keys = state.keys();
        let ghost start = self@;
        let ghost names = name_views(levels@);
        let mut i: usize = 0;
        while i < n
            invariant
                i <= n,
                n == keys.len(),
                keys == state.keys(),
                names == name_views(levels@),
                self@ == (ObservedView { frozen: self@.frozen, ..start }),
                forall|g: GroupIdView| #[trigger]
                    self@.frozen.contains(g) <==> start.frozen.contains(g) || (is_beneath(
                        g,
                        set@,
                        names,
                    ) && exists|j: int| 0 <= j < i && (#[trigger] keys[j]).group == g),
            decreases n - i,
        {
            let group = &state.record_at(i).group;
            assert(keys[i as int].group == group@);
            let ghost before = self@;
            if beneath(group, set, levels) {
                let _ = self.frozen.insert(group.clone());
            }
            proof {
                assert forall|g: GroupIdView| #[trigger] self@.frozen.contains(g)
                    <==> start.frozen.contains(g) || (is_beneath(g, set@, names) && exists|j: int|
                    0 <= j < i + 1 && (#[trigger] keys[j]).group == g) by {
                    if self@.frozen.contains(g) && !before.frozen.contains(g) {
                        assert(keys[i as int].group == g);
                    }
                    if is_beneath(g, set@, names) && exists|j: int|
                        0 <= j < i + 1 && (#[trigger] keys[j]).group == g {
                        let j = choose|j: int| 0 <= j < i + 1 && (#[trigger] keys[j]).group == g;
                        if j < i {
                            assert(before.frozen.contains(g));
                        }
                    }
                    if before.frozen.contains(g) && !start.frozen.contains(g) {
                        let j = choose|j: int| 0 <= j < i && (#[trigger] keys[j]).group == g;
                        assert(0 <= j < i + 1 && keys[j].group == g);
                    }
                }
                assert(self@ =~= (ObservedView { frozen: self@.frozen, ..start }));
            }
            i += 1;
        }
        proof {
            let target = frozen_beneath(start, state@, set@, names);
            assert forall|g: GroupIdView| self@.frozen.contains(g) <==> target.frozen.contains(
                g,
            ) by {
                if is_beneath(g, set@, names) {
                    if exists|k: KeyView| #[trigger] state@.contains_key(k) && k.group == g {
                        let k = choose|k: KeyView| #[trigger]
                            state@.contains_key(k) && k.group == g;
                        assert(keys.to_set().contains(k));
                        let j = choose|j: int| 0 <= j < keys.len() && keys[j] == k;
                        assert(keys[j].group == g);
                    }
                    if exists|j: int| 0 <= j < keys.len() && (#[trigger] keys[j]).group == g {
                        let j = choose|j: int|
                            0 <= j < keys.len() && (#[trigger] keys[j]).group == g;
                        assert(keys.to_set().contains(keys[j]));
                        assert(state@.contains_key(keys[j]));
                    }
                }
            }
            assert(self@.frozen =~= target.frozen);
            assert(self@ =~= target);
        }
    }

    /// Takes in the listing of a directory of a set, and gives the group
    /// directories in it.
    pub fn add_listing(
        &mut self,
        state: &State,
        set: &Name,
        levels: &Vec<Name>,
        listing: Listing,
    ) -> (r: KeySet<Name>)
        requires
            levels@.len() < crate::name::MAX_SET_DEPTH,
        ensures
            r@ == directories_in(listing),
            final(self)@ == set_listed(old(self)@, state@, set@, name_views(levels@), listing),
    {
        let ghost start = self@;
        let ghost names = name_views(levels@);
        let ghost done = set_listed(start, state@, set@, names, listing);
        assert(names.len() == levels@.len());
        match listing {
            Listing::Entries(entries) => {
                let prefix = prefix_of(levels);
                if levels.len() == 0 {
                    let _ = self.scanned_sets.insert(set.clone());
                }
                let r = add_entries(&mut self.notes, set, prefix.as_str(), entries);
                assert(self@ =~= done);
                r
            },
            Listing::Deleted => {
                if levels.len() == 0 {
                    self.freeze_beneath(state, set, levels);
                    let ghost before = self@;
                    let note = Note::SetRootDeleted { set: set.clone() };
                    let ghost added = note@;
                    self.notes.push(note);
                    assert(self@.notes =~= before.notes.push(added));
                    assert(self@ =~= done);
                }
                KeySet::new()
            },
            Listing::Unreadable(error) => {
                self.freeze_beneath(state, set, levels);
                let ghost before = self@;
                let note = if levels.len() == 0 {
                    Note::SetRootUnreadable { set: set.clone(), error }
                } else {
                    Note::MembershipUnreadable {
                        group: GroupId::in_set(set.clone(), crate::name::clone_names(levels)),
                        error,
                    }
                };
                let ghost added = note@;
                self.notes.push(note);
                assert(self@.notes =~= before.notes.push(added));
                assert(self@ =~= done);
                KeySet::new()
            },
        }
    }

    /// Takes in the scan of a group of a set. A group whose directory has been
    /// deleted meanwhile is no group any more.
    pub fn add_discovered(&mut self, scanned: GroupScan<'_>)
        requires
            ready_group(scanned.config@),
        ensures
            final(self)@ == (match scanned.scan@ {
                ScanView::Deleted => old(self)@,
                scan => observe_group(old(self)@, scanned.group@, scanned.config@, scan),
            }),
    {
        match scanned.scan {
            Scan::Deleted => {},
            scan => {
                add_group(self, scanned.group, scanned.config, scan);
            },
        }
    }

    /// Notes a group whose names cannot be used in the set's templates.
    pub fn add_unusable(&mut self, set: &Name, levels: &Vec<Name>, error: InterpolateError)
        ensures
            final(self)@ == (ObservedView {
                notes: old(self)@.notes.push(
                    unusable_note(set@, name_views(levels@), error),
                ),
                ..old(self)@
            }),
    {
        let ghost start = self@;
        let note = Note::SetEntryRejected {
            set: set.clone(),
            rejection: Rejection {
                display_name: levels_text(levels),
                reason: RejectReason::Unusable(error),
            },
        };
        let ghost added = note@;
        self.notes.push(note);
        assert(note_views(self.notes@) =~= start.notes.push(added));
        assert(self@ =~= (ObservedView { notes: start.notes.push(added), ..start }));
    }
}

/// The note about a group whose names cannot be used in the set's templates.
pub open spec fn unusable_note(
    set: Seq<char>,
    levels: Seq<Seq<char>>,
    error: InterpolateError,
) -> NoteView {
    NoteView::SetEntryRejected {
        set,
        rejection: RejectionView {
            display_name: join(levels, seq!['/']),
            reason: RejectReasonView::Unusable(error),
        },
    }
}

fn levels_text(levels: &Vec<Name>) -> (r: String)
    ensures
        r@ == join(name_views(levels@), seq!['/']),
{
    let ghost names = name_views(levels@);
    let mut out = String::new();
    let mut i: usize = 0;
    assert(out@ =~= join(names.take(0), seq!['/']));
    while i < levels.len()
        invariant
            i <= levels@.len(),
            names == name_views(levels@),
            out@ == join(names.take(i as int), seq!['/']),
        decreases levels@.len() - i,
    {
        let ghost next = names.take(i + 1);
        assert(next.drop_last() =~= names.take(i as int));
        assert(next.last() == levels@[i as int]@);
        if i > 0 {
            out.push('/');
        }
        out.append(levels[i].as_str());
        assert(out@ =~= join(next, seq!['/']));
        i += 1;
    }
    assert(names.take(names.len() as int) =~= names);
    out
}

fn prefix_of(levels: &Vec<Name>) -> (r: String)
    ensures
        r@ == prefix_text(name_views(levels@)),
{
    assert(name_views(levels@).len() == levels@.len());
    let mut out = levels_text(levels);
    if levels.len() > 0 {
        out.push('/');
    }
    assert(out@ =~= prefix_text(name_views(levels@)));
    out
}

fn add_entries(notes: &mut Vec<Note>, set: &Name, prefix: &str, entries: Vec<Entry>) -> (r: KeySet<
    Name,
>)
    ensures
        r@ == directories_of(listed(entries@)),
        note_views(final(notes)@) == note_views(old(notes)@) + rejected_entries(
            set@,
            prefix@,
            listed(entries@),
        ),
{
    let ghost views = listed(entries@);
    let ghost start = note_views(notes@);
    let mut out: KeySet<Name> = KeySet::new();
    assert(note_views(notes@) =~= start + rejected_entries(set@, prefix@, views.take(0)));
    for entry in it: entries
        invariant
            it.seq() == entries@,
            views == listed(entries@),
            out@ == directories_of(views.take(it.index() as int)),
            note_views(notes@) == start + rejected_entries(
                set@,
                prefix@,
                views.take(it.index() as int),
            ),
    {
        let ghost k = it.index() as int;
        let ghost before = note_views(notes@);
        proof {
            assert(views.take(k + 1).drop_last() =~= views.take(k));
            assert(views.take(k + 1).last() == views[k]);
            assert(views[k] == (EntryView {
                file_name: entry.0@,
                kind: kind_view(entry.1),
            }));
        }
        let (file_name, kind) = entry;
        let reason = match Name::from_bytes(file_name.as_slice()) {
            Err(NameError::LeadingDot) => None,
            Err(e) => Some(RejectReason::InvalidName(e)),
            Ok(name) => match kind {
                Err(s) => Some(RejectReason::Inaccessible(s)),
                Ok(EntryKind::Directory) => {
                    let _ = out.insert(name);
                    None
                },
                Ok(kind) => Some(RejectReason::NotADirectory(kind)),
            },
        };
        if let Some(reason) = reason {
            let mut display_name = prefix.to_owned();
            display_name.append(display_bytes(file_name.as_slice()).as_str());
            let note = Note::SetEntryRejected {
                set: set.clone(),
                rejection: Rejection { display_name, reason },
            };
            let ghost added = note@;
            notes.push(note);
            assert(note_views(notes@) =~= before.push(added));
        }
        assert(note_views(notes@) =~= start + rejected_entries(
            set@,
            prefix@,
            views.take(k + 1),
        ));
    }
    assert(views.take(views.len() as int) =~= views);
    out
}

// Groups of a set.

/// The membership directory of a group of a set.
pub open spec fn membership_path(root: Seq<char>, levels: Seq<Seq<char>>) -> Seq<char>
    decreases levels.len(),
{
    if levels.len() == 0 {
        root
    } else {
        entry_path(membership_path(root, levels.drop_last()), levels.last())
    }
}

/// The group that directory levels of a set make up.
pub open spec fn bound_group(set: SetView, levels: Seq<Seq<char>>) -> Result<
    GroupView,
    InterpolateError,
> {
    match bind_template(set.source, levels) {
        Err(e) => Err(e),
        Ok(source) => match bind_template(set.target, levels) {
            Err(e) => Err(e),
            Ok(target) => Ok(
                GroupView {
                    name: levels.last(),
                    source_root: set.source_root,
                    source,
                    target_root: set.target_root,
                    target,
                    membership: membership_path(set.membership_root, levels),
                    attrs: set.attrs,
                    origin: set.origin,
                },
            ),
        },
    }
}

fn membership_of(root: &AbsPath, levels: &Vec<Name>) -> (r: AbsPath)
    ensures
        r@ == membership_path(root@, name_views(levels@)),
{
    let ghost names = name_views(levels@);
    let mut out = root.clone();
    let mut i: usize = 0;
    assert(names.take(0) =~= Seq::empty());
    while i < levels.len()
        invariant
            i <= levels@.len(),
            names == name_views(levels@),
            out@ == membership_path(root@, names.take(i as int)),
        decreases levels@.len() - i,
    {
        proof {
            assert(names.take(i + 1).drop_last() =~= names.take(i as int));
            assert(names.take(i + 1).last() == levels@[i as int]@);
        }
        out = out.join(&levels[i]);
        i += 1;
    }
    assert(names.take(names.len() as int) =~= names);
    out
}

proof fn lemma_levels_below_more(t: TemplateView, n: nat, m: nat)
    requires
        levels_below(t.components, n),
        n <= m,
    ensures
        levels_below(t.components, m),
{
}

impl GroupSetConfig {
    /// The number of directory levels that make up a group: one or two.
    pub fn depth(&self) -> (r: usize)
        ensures
            r == set_depth(self@.source, self@.target),
    {
        if self.source.has_level(1) || self.target.has_level(1) {
            2
        } else {
            1
        }
    }

    /// The group that directory levels of the set make up: the names fill the
    /// placeholders, and members can then be interpolated.
    pub fn group(&self, levels: &Vec<Name>) -> (r: Result<GroupConfig, InterpolateError>)
        requires
            levels@.len() == set_depth(self@.source, self@.target),
        ensures
            match r {
                Ok(g) => bound_group(self@, name_views(levels@)) == Ok::<
                    GroupView,
                    InterpolateError,
                >(g@) && bound_template(g@.source) && bound_template(g@.target),
                Err(e) => bound_group(self@, name_views(levels@)) == Err::<
                    GroupView,
                    InterpolateError,
                >(e),
            },
    {
        let source_depth = self.source.depth();
        let target_depth = self.target.depth();
        proof {
            assert(source_depth <= levels@.len());
            assert(target_depth <= levels@.len());
            lemma_levels_below_more(self@.source, source_depth as nat, levels@.len());
            lemma_levels_below_more(self@.target, target_depth as nat, levels@.len());
            assert(name_views(levels@).len() == levels@.len());
            assert(name_views(levels@).last() == levels@.last()@);
        }
        let source = match self.source.bind_levels(levels.as_slice()) {
            Ok(t) => t,
            Err(e) => return Err(e),
        };
        let target = match self.target.bind_levels(levels.as_slice()) {
            Ok(t) => t,
            Err(e) => return Err(e),
        };
        let r = GroupConfig {
            name: levels[levels.len() - 1].clone(),
            source_root: self.source_root.clone(),
            source,
            target_root: self.target_root.clone(),
            target,
            membership: membership_of(&self.membership_root, levels),
            attrs: self.attrs,
            origin: self.origin.clone(),
        };
        Ok(r)
    }
}

// Laws.

/// A lost membership root removes nothing: every group of the set with a
/// recorded mount is left alone.
pub proof fn law_lost_roots_freeze_their_set(
    o: ObservedView,
    state: Map<KeyView, RecordView>,
    set: Seq<char>,
    listing: Listing,
    key: KeyView,
)
    requires
        listing !is Entries,
        state.contains_key(key),
        key.group.set == Some(set),
    ensures
        set_listed(o, state, set, Seq::empty(), listing).frozen.contains(key.group),
{
    assert(Seq::<Seq<char>>::empty().is_prefix_of(key.group.path)) by {
        assert(key.group.path.take(0) =~= Seq::empty());
    }
    assert(recorded_beneath(state, set, Seq::empty()).contains(key.group));
}

/// A directory that cannot be read freezes only the groups beneath it.
pub proof fn law_unreadable_directories_freeze_what_is_beneath(
    o: ObservedView,
    state: Map<KeyView, RecordView>,
    set: Seq<char>,
    levels: Seq<Seq<char>>,
    error: String,
    group: GroupIdView,
)
    ensures
        ({
            let after = set_listed(o, state, set, levels, Listing::Unreadable(error));
            &&& after.frozen.contains(group) && !o.frozen.contains(group) ==> is_beneath(
                group,
                set,
                levels,
            )
            &&& o.frozen.subset_of(after.frozen)
            &&& forall|k: KeyView| #[trigger]
                state.contains_key(k) && is_beneath(k.group, set, levels) ==> after.frozen.contains(
                    k.group,
                )
        }),
{
    let after = set_listed(o, state, set, levels, Listing::Unreadable(error));
    assert forall|k: KeyView| #[trigger] state.contains_key(k) && is_beneath(
        k.group,
        set,
        levels,
    ) implies after.frozen.contains(k.group) by {
        assert(recorded_beneath(state, set, levels).contains(k.group));
    }
}

/// A deleted group directory freezes nothing, so its groups are removed.
pub proof fn law_deleted_directories_remove_their_groups(
    o: ObservedView,
    state: Map<KeyView, RecordView>,
    set: Seq<char>,
    levels: Seq<Seq<char>>,
)
    requires
        levels.len() > 0,
    ensures
        set_listed(o, state, set, levels, Listing::Deleted) == o,
        directories_in(Listing::Deleted) == Set::<Seq<char>>::empty(),
{
}

/// Every group that directory levels of a set make up has the set's own
/// roots and attributes, one by one, whatever the levels are. It is named by
/// the innermost level, its templates are the set's with the level names put
/// in, and its members are read from the directory of those names beneath the
/// set's membership root.
pub proof fn law_groups_take_the_settings_of_their_set(
    set: SetView,
    levels: Seq<Seq<char>>,
    g: GroupView,
)
    requires
        bound_group(set, levels) == Ok::<GroupView, InterpolateError>(g),
        levels.len() > 0,
        forall|i: int| 0 <= i < levels.len() ==> valid_name(#[trigger] levels[i]),
        valid_template(set.source),
        valid_template(set.target),
        levels_below(set.source.components, levels.len()),
        levels_below(set.target.components, levels.len()),
        set.membership_root.len() > 0,
    ensures
        g.source_root == set.source_root,
        g.target_root == set.target_root,
        g.attrs.read_only == set.attrs.read_only,
        g.attrs.noexec == set.attrs.noexec,
        g.attrs.nosymfollow == set.attrs.nosymfollow,
        g.origin == set.origin,
        g.name == levels[levels.len() - 1],
        g.source.raw == substituted(set.source.raw, levels),
        g.target.raw == substituted(set.target.raw, levels),
        g.membership == (if set.membership_root.len() == 1 {
            set.membership_root
        } else {
            set.membership_root + seq!['/']
        }) + join(levels, seq!['/']),
{
    law_levels_are_substituted(set.source, levels);
    law_levels_are_substituted(set.target, levels);
    lemma_membership_path(set.membership_root, levels);
}

proof fn lemma_membership_path(root: Seq<char>, levels: Seq<Seq<char>>)
    requires
        root.len() > 0,
        levels.len() > 0,
        forall|i: int| 0 <= i < levels.len() ==> (#[trigger] levels[i]).len() > 0,
    ensures
        membership_path(root, levels).len() > 1,
        membership_path(root, levels) == (if root.len() == 1 {
            root
        } else {
            root + seq!['/']
        }) + join(levels, seq!['/']),
    decreases levels.len(),
{
    let front = levels.drop_last();
    let start = if root.len() == 1 {
        root
    } else {
        root + seq!['/']
    };
    assert(levels[levels.len() - 1].len() > 0);
    if levels.len() == 1 {
        assert(membership_path(root, front) == root);
        assert(membership_path(root, levels) =~= start + levels[0]);
    } else {
        assert forall|i: int| 0 <= i < front.len() implies (#[trigger] front[i]).len() > 0 by {
            assert(front[i] == levels[i]);
        }
        lemma_membership_path(root, front);
        assert(membership_path(root, levels) =~= start + join(levels, seq!['/']));
    }
}

/// The group directories of a set are exactly the directories whose names are
/// valid: no file, no link, nothing that could not be inspected, and nothing
/// that a name rule refuses.
pub proof fn law_group_directories_are_named_directories(entries: Seq<EntryView>, name: Seq<char>)
    ensures
        directories_of(entries).contains(name) <==> exists|i: int|
            0 <= i < entries.len() && check_name((#[trigger] entries[i]).file_name) == Ok::<
                Seq<char>,
                NameError,
            >(name) && entries[i].kind == Ok::<EntryKind, Seq<char>>(EntryKind::Directory),
    decreases entries.len(),
{
    if entries.len() > 0 {
        let front = entries.drop_last();
        law_group_directories_are_named_directories(front, name);
        if directories_of(front).contains(name) {
            let i = choose|i: int|
                0 <= i < front.len() && check_name((#[trigger] front[i]).file_name) == Ok::<
                    Seq<char>,
                    NameError,
                >(name) && front[i].kind == Ok::<EntryKind, Seq<char>>(EntryKind::Directory);
            assert(entries[i] == front[i]);
        }
        assert(entries[entries.len() - 1] == entries.last());
        if exists|i: int|
            0 <= i < entries.len() && check_name((#[trigger] entries[i]).file_name) == Ok::<
                Seq<char>,
                NameError,
            >(name) && entries[i].kind == Ok::<EntryKind, Seq<char>>(EntryKind::Directory) {
            let i = choose|i: int|
                0 <= i < entries.len() && check_name((#[trigger] entries[i]).file_name) == Ok::<
                    Seq<char>,
                    NameError,
                >(name) && entries[i].kind == Ok::<EntryKind, Seq<char>>(EntryKind::Directory);
            if i < front.len() {
                assert(front[i] == entries[i]);
            }
        }
    }
}

/// Whether a note says of an entry of a set's directory why it is no group.
pub open spec fn refuses(note: NoteView, set: Seq<char>, prefix: Seq<char>, entry: EntryView) -> bool {
    &&& note matches NoteView::SetEntryRejected { set: s, rejection } && s == set
        && rejection.display_name == prefix + escaped_bytes(entry.file_name) && match check_name(
        entry.file_name,
    ) {
        Err(e) => e != NameError::LeadingDot && rejection.reason == RejectReasonView::InvalidName(
            e,
        ),
        Ok(_) => match entry.kind {
            Err(s) => rejection.reason == RejectReasonView::Inaccessible(s),
            Ok(kind) => kind != EntryKind::Directory && rejection.reason
                == RejectReasonView::NotADirectory(kind),
        },
    }
}

/// Every entry of a set's directory that is neither a group nor hidden is
/// noted, with the rule it breaks; a hidden entry is passed over in silence.
pub proof fn law_other_entries_are_noted(
    set: Seq<char>,
    prefix: Seq<char>,
    entries: Seq<EntryView>,
    i: int,
)
    requires
        0 <= i < entries.len(),
    ensures
        (check_name(entries[i].file_name) matches Ok(_) ==> entries[i].kind != Ok::<
            EntryKind,
            Seq<char>,
        >(EntryKind::Directory)) && check_name(entries[i].file_name) != Err::<Seq<char>, NameError>(
            NameError::LeadingDot,
        ) ==> exists|k: int|
            0 <= k < rejected_entries(set, prefix, entries).len() && refuses(
                #[trigger] rejected_entries(set, prefix, entries)[k],
                set,
                prefix,
                entries[i],
            ),
    decreases entries.len(),
{
    let front = entries.drop_last();
    let before = rejected_entries(set, prefix, front);
    let all = rejected_entries(set, prefix, entries);
    if i < front.len() {
        law_other_entries_are_noted(set, prefix, front, i);
        assert(front[i] == entries[i]);
        if exists|k: int|
            0 <= k < before.len() && refuses(#[trigger] before[k], set, prefix, entries[i]) {
            let k = choose|k: int|
                0 <= k < before.len() && refuses(#[trigger] before[k], set, prefix, entries[i]);
            assert(all[k] == before[k]);
        }
    } else if all.len() > before.len() {
        assert(refuses(all[before.len() as int], set, prefix, entries[i]));
    }
}

/// Nothing else is noted of a listing, and each entry at most once.
pub proof fn law_only_refused_entries_are_noted(
    set: Seq<char>,
    prefix: Seq<char>,
    entries: Seq<EntryView>,
    k: int,
)
    requires
        0 <= k < rejected_entries(set, prefix, entries).len(),
    ensures
        rejected_entries(set, prefix, entries).len() <= entries.len(),
        exists|i: int|
            0 <= i < entries.len() && refuses(
                rejected_entries(set, prefix, entries)[k],
                set,
                prefix,
                #[trigger] entries[i],
            ),
    decreases entries.len(),
{
    let front = entries.drop_last();
    let before = rejected_entries(set, prefix, front);
    let all = rejected_entries(set, prefix, entries);
    if before.len() > 0 {
        law_only_refused_entries_are_noted(set, prefix, front, if k < before.len() { k } else { 0 });
    }
    if k < before.len() {
        let i = choose|i: int|
            0 <= i < front.len() && refuses(before[k], set, prefix, #[trigger] front[i]);
        assert(entries[i] == front[i]);
        assert(all[k] == before[k]);
    } else {
        assert(refuses(all[k], set, prefix, entries[entries.len() - 1]));
    }
}

/// Listing a directory of a set changes no desired mount and no observation;
/// the set counts as scanned exactly once its membership root was read, and a
/// directory that was not read has no groups.
pub proof fn law_listing_only_notes_and_freezes(
    o: ObservedView,
    state: Map<KeyView, RecordView>,
    set: Seq<char>,
    levels: Seq<Seq<char>>,
    listing: Listing,
)
    ensures
        ({
            let after = set_listed(o, state, set, levels, listing);
            &&& after.desired == o.desired
            &&& after.sources == o.sources
            &&& after.targets == o.targets
            &&& after.members == o.members
            &&& after.ignored == o.ignored
            &&& after.notes.len() >= o.notes.len()
            &&& forall|k: int| 0 <= k < o.notes.len() ==> after.notes[k] == #[trigger] o.notes[k]
            &&& forall|s: Seq<char>| #[trigger]
                after.scanned_sets.contains(s) <==> o.scanned_sets.contains(s) || (s == set
                    && levels.len() == 0 && listing is Entries)
            &&& listing is Entries ==> after.frozen == o.frozen
            &&& !(listing is Entries) ==> directories_in(listing) =~= Set::empty()
        }),
{
}

} // verus!
