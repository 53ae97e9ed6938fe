//! What inotify events on membership directories mean.
use vstd::prelude::*;

use crate::name::{GroupId, GroupIdView, Name};
use crate::order::{strict_order, Key, KeySet, Table};

verus! {

/// `IN_Q_OVERFLOW`.
pub const IN_Q_OVERFLOW: u32 = 0x4000;

/// `IN_DELETE_SELF | IN_MOVE_SELF | IN_IGNORED | IN_UNMOUNT`: the watched
/// directory itself is gone.
pub const IN_GONE: u32 = 0xac00;

impl Key for i32 {
    open spec fn before(a: i32, b: i32) -> bool {
        a < b
    }

    proof fn lemma_key_order() {
        let f = |a: i32, b: i32| Self::before(a, b);
        assert(strict_order(f));
    }

    fn is_before(&self, other: &Self) -> (r: bool) {
        assert(<i32 as Key>::before(self@, other@) == (self@ < other@));
        *self < *other
    }
}

/// A watched directory.
#[derive(Debug, PartialEq, Eq)]
pub enum Watched {
    /// The membership directory of a statically configured group.
    Group(GroupId),
    /// The membership root of a group set.
    SetRoot(Name),
    /// A directory beneath the membership root of a group set.
    Inner,
}

/// A watched directory.
#[verifier::ext_equal]
pub enum WatchedView {
    /// The membership directory of a statically configured group.
    Group(GroupIdView),
    /// The membership root of a group set.
    SetRoot(Seq<char>),
    /// A directory beneath the membership root of a group set.
    Inner,
}

impl View for Watched {
    type V = WatchedView;

    open spec fn view(&self) -> WatchedView {
        match self {
            Watched::Group(g) => WatchedView::Group(g@),
            Watched::SetRoot(s) => WatchedView::SetRoot(s@),
            Watched::Inner => WatchedView::Inner,
        }
    }
}

impl Clone for Watched {
    fn clone(&self) -> (r: Self)
        ensures
            r@ == self@,
    {
        match self {
            Watched::Group(g) => Watched::Group(g.clone()),
            Watched::SetRoot(s) => Watched::SetRoot(s.clone()),
            Watched::Inner => Watched::Inner,
        }
    }
}

/// An event: the watch it belongs to, and what happened.
#[derive(Debug, Clone, Copy, PartialEq, Eq, Structural)]
pub struct WatchEvent {
    /// Watch descriptor.
    pub wd: i32,
    /// Event mask.
    pub mask: u32,
}

/// What a batch of inotify events means for reconciliation.
#[derive(Debug, PartialEq, Eq)]
pub struct Changes {
    /// Some membership directory changed.
    pub membership_changed: bool,
    /// The kernel event queue overflowed; changes may have been lost.
    pub overflow: bool,
    /// Groups whose membership directory was deleted, moved or unmounted.
    pub lost: KeySet<GroupId>,
    /// Group sets whose membership root was deleted, moved or unmounted.
    pub lost_sets: KeySet<Name>,
}

/// What changes stand for.
#[verifier::ext_equal]
pub struct ChangesView {
    /// Some membership directory changed.
    pub membership_changed: bool,
    /// The kernel event queue overflowed.
    pub overflow: bool,
    /// Groups that were lost.
    pub lost: Set<GroupIdView>,
    /// Group sets that were lost.
    pub lost_sets: Set<Seq<char>>,
}

impl View for Changes {
    type V = ChangesView;

    open spec fn view(&self) -> ChangesView {
        ChangesView {
            membership_changed: self.membership_changed,
            overflow: self.overflow,
            lost: self.lost@,
            lost_sets: self.lost_sets@,
        }
    }
}

impl ChangesView {
    /// Nothing happened.
    pub open spec fn none() -> ChangesView {
        ChangesView {
            membership_changed: false,
            overflow: false,
            lost: Set::empty(),
            lost_sets: Set::empty(),
        }
    }
}

impl Default for Changes {
    fn default() -> (r: Self)
        ensures
            r@ == ChangesView::none(),
    {
        Changes {
            membership_changed: false,
            overflow: false,
            lost: KeySet::new(),
            lost_sets: KeySet::new(),
        }
    }
}

/// What one event adds. Events of unknown watches mean nothing; a directory
/// beneath a set root may come and go, which is a change like any other.
pub open spec fn change_by(c: ChangesView, watches: Map<i32, WatchedView>, e: WatchEvent) -> ChangesView {
    if e.mask & IN_Q_OVERFLOW != 0 {
        ChangesView { overflow: true, ..c }
    } else if !watches.contains_key(e.wd) {
        c
    } else if e.mask & IN_GONE != 0 {
        match watches[e.wd] {
            WatchedView::Group(g) => ChangesView { lost: c.lost.insert(g), ..c },
            WatchedView::SetRoot(s) => ChangesView { lost_sets: c.lost_sets.insert(s), ..c },
            WatchedView::Inner => ChangesView { membership_changed: true, ..c },
        }
    } else {
        ChangesView { membership_changed: true, ..c }
    }
}

/// What events mean, in order.
pub open spec fn changes_by(watches: Map<i32, WatchedView>, events: Seq<WatchEvent>) -> ChangesView
    decreases events.len(),
{
    if events.len() == 0 {
        ChangesView::none()
    } else {
        change_by(changes_by(watches, events.drop_last()), watches, events.last())
    }
}

/// Whether a watched directory was lost.
pub open spec fn is_lost(c: ChangesView, w: WatchedView) -> bool {
    match w {
        WatchedView::Group(g) => c.lost.contains(g),
        WatchedView::SetRoot(s) => c.lost_sets.contains(s),
        WatchedView::Inner => false,
    }
}

/// The watches that are left once the lost directories are forgotten.
pub open spec fn watches_left(watches: Map<i32, WatchedView>, c: ChangesView) -> Map<i32, WatchedView> {
    Map::new(
        |wd: i32| watches.contains_key(wd) && !is_lost(c, watches[wd]),
        |wd: i32| watches[wd],
    )
}

fn classify(watches: &Table<i32, Watched>, events: &Vec<WatchEvent>) -> (r: Changes)
    ensures
        r@ == changes_by(watches@, events@),
{
    let mut c = Changes::default();
    let mut i: usize = 0;
    assert(events@.take(0) =~= Seq::<WatchEvent>::empty());
    while i < events.len()
        invariant
            i <= events@.len(),
            c@ == changes_by(watches@, events@.take(i as int)),
        decreases events@.len() - i,
    {
        let e = events[i];
        let ghost before = c@;
        proof {
            assert(events@.take(i + 1).drop_last() =~= events@.take(i as int));
            assert(events@.take(i + 1).last() == e);
        }
        if e.mask & IN_Q_OVERFLOW != 0 {
            c.overflow = true;
        } else {
            match watches.get(&e.wd) {
                None => {},
                Some(watched) => {
                    if e.mask & IN_GONE != 0 {
                        match watched {
                            Watched::Group(g) => {
                                let _ = c.lost.insert(g.clone());
                            },
                            Watched::SetRoot(s) => {
                                let _ = c.lost_sets.insert(s.clone());
                            },
                            Watched::Inner => {
                                c.membership_changed = true;
                            },
                        }
                    } else {
                        c.membership_changed = true;
                    }
                },
            }
        }
        assert(c@ =~= change_by(before, watches@, e));
        i += 1;
    }
    assert(events@.take(events@.len() as int) =~= events@);
    c
}

/// What a batch of events means. Directories that were lost are no longer
/// watched.
pub fn drain(watches: &mut Table<i32, Watched>, events: &Vec<WatchEvent>) -> (r: Changes)
    ensures
        r@ == changes_by(old(watches)@, events@),
        final(watches)@ == watches_left(old(watches)@, r@),
{
    let c = classify(watches, events);
    let ghost all = watches@;
    let mut left: Table<i32, Watched> = Table::new();
    let n: usize = watches.len();
    let ghost keys = watches.keys();
    let mut i: usize = 0;
    while i < n
        invariant
            i <= n,
            n == keys.len(),
            keys == watches.keys(),
            all == watches@,
            forall|wd: i32| #[trigger]
                left@.contains_key(wd) <==> (!is_lost(c@, all[wd]) && exists|j: int|
                    0 <= j < i && keys[j] == wd),
            forall|wd: i32| #[trigger] left@.contains_key(wd) ==> left@[wd] == all[wd],
        decreases n - i,
    {
        let ghost before = left@;
        let wd: i32 = *watches.key_at(i);
        let watched = watches.value_at(i);
        let gone = match watched {
            Watched::Group(g) => c.lost.contains(g),
            Watched::SetRoot(s) => c.lost_sets.contains(s),
            Watched::Inner => false,
        };
        if !gone {
            let _ = left.insert(wd, watched.clone());
        }
        i += 1;
        assert forall|x: i32| #[trigger] left@.contains_key(x) implies (!is_lost(c@, all[x])
            && exists|j: int| 0 <= j < i && keys[j] == x) by {
            if before.contains_key(x) {
                let j = choose|j: int| 0 <= j < i - 1 && keys[j] == x;
                assert(keys[j] == x);
            } else {
                assert(keys[i - 1] == x);
            }
        }
    }
    proof {
        assert(keys.to_set() == all.dom());
        assert forall|wd: i32| all.contains_key(wd) implies (exists|j: int|
            0 <= j < n && keys[j] == wd) by {
            assert(keys.to_set().contains(wd));
        }
        assert forall|wd: i32| (exists|j: int| 0 <= j < n && keys[j] == wd) implies #[trigger] all.contains_key(wd) by {
            let j = choose|j: int| 0 <= j < n && keys[j] == wd;
            assert(keys.to_set().contains(keys[j]));
        }
        assert(left@ =~= watches_left(all, c@));
    }
    *watches = left;
    c
}

/// Whether an event is of a directory that is still there: one that is
/// watched, whatever its kind.
pub open spec fn is_change(watches: Map<i32, WatchedView>, e: WatchEvent) -> bool {
    e.mask & 0x4000 == 0 && e.mask & 0xac00 == 0 && watches.contains_key(e.wd)
}

/// Whether an event says that a watched directory itself is gone.
pub open spec fn is_loss(watches: Map<i32, WatchedView>, e: WatchEvent) -> bool {
    e.mask & 0x4000 == 0 && e.mask & 0xac00 != 0 && watches.contains_key(e.wd)
}

proof fn lemma_changes_stay(watches: Map<i32, WatchedView>, events: Seq<WatchEvent>, n: int)
    requires
        0 <= n <= events.len(),
    ensures
        changes_by(watches, events.take(n)).membership_changed ==> changes_by(
            watches,
            events,
        ).membership_changed,
        changes_by(watches, events.take(n)).overflow ==> changes_by(watches, events).overflow,
        changes_by(watches, events.take(n)).lost.subset_of(changes_by(watches, events).lost),
        changes_by(watches, events.take(n)).lost_sets.subset_of(
            changes_by(watches, events).lost_sets,
        ),
    decreases events.len() - n,
{
    if n < events.len() {
        assert(events.take(n + 1).drop_last() =~= events.take(n));
        lemma_changes_stay(watches, events, n + 1);
    } else {
        assert(events.take(n) =~= events);
    }
}

/// An event of any watched directory that is still there means that
/// membership changed: of a static group's directory, of a set's root and of
/// one beneath it alike.
pub proof fn law_changes_of_watched_directories_count(
    watches: Map<i32, WatchedView>,
    events: Seq<WatchEvent>,
    i: int,
)
    requires
        0 <= i < events.len(),
        is_change(watches, events[i]),
    ensures
        changes_by(watches, events).membership_changed,
{
    assert(events.take(i + 1).drop_last() =~= events.take(i));
    assert(events.take(i + 1).last() == events[i]);
    lemma_changes_stay(watches, events, i + 1);
}

/// Whatever else happens in the batch, a full queue is reported, and so is
/// the loss of a directory: of a static group as the group, of a set's root as
/// the set, and of a directory beneath it as a change.
pub proof fn law_losses_are_reported(watches: Map<i32, WatchedView>, events: Seq<WatchEvent>, i: int)
    requires
        0 <= i < events.len(),
    ensures
        events[i].mask & 0x4000 != 0 ==> changes_by(watches, events).overflow,
        is_loss(watches, events[i]) ==> match watches[events[i].wd] {
            WatchedView::Group(group) => changes_by(watches, events).lost.contains(group),
            WatchedView::SetRoot(set) => changes_by(watches, events).lost_sets.contains(set),
            WatchedView::Inner => changes_by(watches, events).membership_changed,
        },
{
    assert(events.take(i + 1).drop_last() =~= events.take(i));
    assert(events.take(i + 1).last() == events[i]);
    lemma_changes_stay(watches, events, i + 1);
}

/// Nothing is reported without an event of its own: a change needs an event
/// of a watched directory, an overflow one of the queue, and a lost group or
/// set one of its own directory.
pub proof fn law_nothing_is_reported_unseen(watches: Map<i32, WatchedView>, events: Seq<WatchEvent>)
    ensures
        changes_by(watches, events).membership_changed ==> exists|i: int|
            0 <= i < events.len() && (is_change(watches, #[trigger] events[i]) || (is_loss(
                watches,
                events[i],
            ) && watches[events[i].wd] == WatchedView::Inner)),
        changes_by(watches, events).overflow ==> exists|i: int|
            0 <= i < events.len() && (#[trigger] events[i]).mask & 0x4000 != 0,
        forall|group: GroupIdView| #[trigger]
            changes_by(watches, events).lost.contains(group) ==> exists|i: int|
                0 <= i < events.len() && is_loss(watches, #[trigger] events[i])
                    && watches[events[i].wd] == WatchedView::Group(group),
        forall|set: Seq<char>| #[trigger]
            changes_by(watches, events).lost_sets.contains(set) ==> exists|i: int|
                0 <= i < events.len() && is_loss(watches, #[trigger] events[i])
                    && watches[events[i].wd] == WatchedView::SetRoot(set),
    decreases events.len(),
{
    if events.len() > 0 {
        let front = events.drop_last();
        let last: int = events.len() - 1;
        law_nothing_is_reported_unseen(watches, front);
        assert(forall|i: int| 0 <= i < front.len() ==> #[trigger] front[i] == events[i]);
        assert(events[last] == events.last());
        let now = changes_by(watches, events);
        let before = changes_by(watches, front);
        if now.membership_changed && before.membership_changed {
            let i = choose|i: int|
                0 <= i < front.len() && (is_change(watches, #[trigger] front[i]) || (is_loss(
                    watches,
                    front[i],
                ) && watches[front[i].wd] == WatchedView::Inner));
            assert(front[i] == events[i]);
        }
        if now.overflow && before.overflow {
            let i = choose|i: int| 0 <= i < front.len() && (#[trigger] front[i]).mask & 0x4000 != 0;
            assert(front[i] == events[i]);
        }
        assert forall|group: GroupIdView| #[trigger] now.lost.contains(group) implies exists|i: int|
            0 <= i < events.len() && is_loss(watches, #[trigger] events[i])
                && watches[events[i].wd] == WatchedView::Group(group) by {
            if before.lost.contains(group) {
                let i = choose|i: int|
                    0 <= i < front.len() && is_loss(watches, #[trigger] front[i])
                        && watches[front[i].wd] == WatchedView::Group(group);
                assert(front[i] == events[i]);
            }
        }
        assert forall|set: Seq<char>| #[trigger] now.lost_sets.contains(set) implies exists|i: int|
            0 <= i < events.len() && is_loss(watches, #[trigger] events[i])
                && watches[events[i].wd] == WatchedView::SetRoot(set) by {
            if before.lost_sets.contains(set) {
                let i = choose|i: int|
                    0 <= i < front.len() && is_loss(watches, #[trigger] front[i])
                        && watches[front[i].wd] == WatchedView::SetRoot(set);
                assert(front[i] == events[i]);
            }
        }
    }
}

/// After a batch the directory of a lost group and the root of a lost set are
/// no longer watched; every other watch is kept as it was.
pub proof fn law_only_lost_directories_are_forgotten(
    watches: Map<i32, WatchedView>,
    events: Seq<WatchEvent>,
    wd: i32,
)
    requires
        watches.contains_key(wd),
    ensures
        ({
            let c = changes_by(watches, events);
            let left = watches_left(watches, c);
            &&& left.contains_key(wd) ==> left[wd] == watches[wd]
            &&& match watches[wd] {
                WatchedView::Group(group) => left.contains_key(wd) <==> !c.lost.contains(group),
                WatchedView::SetRoot(set) => left.contains_key(wd) <==> !c.lost_sets.contains(set),
                WatchedView::Inner => left.contains_key(wd),
            }
        }),
{
}

proof fn lemma_lost_stays(watches: Map<i32, WatchedView>, events: Seq<WatchEvent>, n: int, g: GroupIdView)
    requires
        0 <= n <= events.len(),
        changes_by(watches, events.take(n)).lost.contains(g),
    ensures
        changes_by(watches, events).lost.contains(g),
    decreases events.len() - n,
{
    if n < events.len() {
        assert(events.take(n + 1).drop_last() =~= events.take(n));
        lemma_lost_stays(watches, events, n + 1, g);
    } else {
        assert(events.take(n) =~= events);
    }
}

/// A static membership directory that is deleted, moved or unmounted is
/// reported as lost, whatever else happens in the batch.
pub proof fn law_lost_groups_are_reported(
    watches: Map<i32, WatchedView>,
    events: Seq<WatchEvent>,
    i: int,
    group: GroupIdView,
)
    requires
        0 <= i < events.len(),
        events[i].mask & IN_Q_OVERFLOW == 0,
        events[i].mask & IN_GONE != 0,
        watches.contains_key(events[i].wd),
        watches[events[i].wd] == WatchedView::Group(group),
    ensures
        changes_by(watches, events).lost.contains(group),
{
    assert(events.take(i + 1).drop_last() =~= events.take(i));
    assert(events.take(i + 1).last() == events[i]);
    lemma_lost_stays(watches, events, i + 1, group);
}

} // verus!
