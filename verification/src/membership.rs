//! Classification of membership directory entries.
//!
//! An entry makes its name a member only if the name is valid, the entry is a
//! regular file (not followed through symlinks), and it is empty.
use vstd::prelude::*;
use vstd::string::*;

use crate::name::{check_name, display_bytes, escaped_bytes, Name, NameError};
use crate::order::KeySet;
use crate::template::InterpolateError;
use crate::text::{decimal, push_decimal};

verus! {

/// The type of a directory entry, as reported by `statx` without following
/// symlinks.
#[derive(Debug, Clone, Copy, PartialEq, Eq, Structural)]
pub enum EntryKind {
    /// A regular file of the given size.
    Regular {
        /// Size in bytes.
        size: u64,
    },
    /// A directory.
    Directory,
    /// A symbolic link.
    Symlink,
    /// A named pipe.
    Fifo,
    /// A Unix domain socket.
    Socket,
    /// A character device.
    CharDevice,
    /// A block device.
    BlockDevice,
    /// Any other type.
    Unknown,
}

impl EntryKind {
    /// The type in words.
    pub open spec fn text(self) -> Seq<char> {
        match self {
            EntryKind::Regular { size } => "regular file"@,
            EntryKind::Directory => "directory"@,
            EntryKind::Symlink => "symbolic link"@,
            EntryKind::Fifo => "FIFO"@,
            EntryKind::Socket => "socket"@,
            EntryKind::CharDevice => "character device"@,
            EntryKind::BlockDevice => "block device"@,
            EntryKind::Unknown => "unknown file type"@,
        }
    }

    /// Names the type.
    pub fn describe(&self) -> (r: &'static str)
        ensures
            r@ == self.text(),
    {
        match self {
            EntryKind::Regular { .. } => "regular file",
            EntryKind::Directory => "directory",
            EntryKind::Symlink => "symbolic link",
            EntryKind::Fifo => "FIFO",
            EntryKind::Socket => "socket",
            EntryKind::CharDevice => "character device",
            EntryKind::BlockDevice => "block device",
            EntryKind::Unknown => "unknown file type",
        }
    }
}

/// Why an entry was rejected.
#[derive(Debug, PartialEq, Eq)]
pub enum RejectReason {
    /// The file name fails the name rules.
    InvalidName(NameError),
    /// The entry is not a regular file.
    NotRegularFile(EntryKind),
    /// The file is not empty.
    NotEmpty(u64),
    /// The entry could not be inspected.
    Inaccessible(String),
    /// The entry of a group set is not a directory.
    NotADirectory(EntryKind),
    /// The name of a group cannot be used in the set's templates.
    Unusable(InterpolateError),
}

/// What a rejection says.
#[verifier::ext_equal]
pub enum RejectReasonView {
    /// The file name fails the name rules.
    InvalidName(NameError),
    /// The entry is not a regular file.
    NotRegularFile(EntryKind),
    /// The file is not empty.
    NotEmpty(u64),
    /// The entry could not be inspected.
    Inaccessible(Seq<char>),
    /// The entry of a group set is not a directory.
    NotADirectory(EntryKind),
    /// The name of a group cannot be used in the set's templates.
    Unusable(InterpolateError),
}

impl View for RejectReason {
    type V = RejectReasonView;

    open spec fn view(&self) -> RejectReasonView {
        match self {
            RejectReason::InvalidName(e) => RejectReasonView::InvalidName(*e),
            RejectReason::NotRegularFile(k) => RejectReasonView::NotRegularFile(*k),
            RejectReason::NotEmpty(n) => RejectReasonView::NotEmpty(*n),
            RejectReason::Inaccessible(s) => RejectReasonView::Inaccessible(s@),
            RejectReason::NotADirectory(k) => RejectReasonView::NotADirectory(*k),
            RejectReason::Unusable(e) => RejectReasonView::Unusable(*e),
        }
    }
}

impl Clone for RejectReason {
    fn clone(&self) -> (r: Self)
        ensures
            r@ == self@,
    {
        match self {
            RejectReason::InvalidName(e) => RejectReason::InvalidName(*e),
            RejectReason::NotRegularFile(k) => RejectReason::NotRegularFile(*k),
            RejectReason::NotEmpty(n) => RejectReason::NotEmpty(*n),
            RejectReason::Inaccessible(s) => RejectReason::Inaccessible(s.clone()),
            RejectReason::NotADirectory(k) => RejectReason::NotADirectory(*k),
            RejectReason::Unusable(e) => RejectReason::Unusable(*e),
        }
    }
}

impl RejectReasonView {
    /// The reason in words.
    pub open spec fn text(self) -> Seq<char> {
        match self {
            RejectReasonView::InvalidName(e) => "name fails allowlist: "@ + e.text(),
            RejectReasonView::NotRegularFile(k) => "not a regular file ("@ + k.text() + ")"@,
            RejectReasonView::NotEmpty(n) => "file is not empty ("@ + decimal(n as nat)
                + " bytes)"@,
            RejectReasonView::Inaccessible(s) => "cannot inspect entry: "@ + s,
            RejectReasonView::NotADirectory(k) => "not a directory ("@ + k.text() + ")"@,
            RejectReasonView::Unusable(e) => "cannot be used in a template: "@ + e.text(),
        }
    }
}

impl RejectReason {
    /// Describes the reason.
    pub fn message(&self) -> (r: String)
        ensures
            r@ == self@.text(),
    {
        let mut out = String::new();
        match self {
            RejectReason::InvalidName(e) => {
                out.append("name fails allowlist: ");
                out.append(e.message().as_str());
            },
            RejectReason::NotRegularFile(k) => {
                out.append("not a regular file (");
                out.append(k.describe());
                out.append(")");
            },
            RejectReason::NotEmpty(n) => {
                out.append("file is not empty (");
                push_decimal(&mut out, *n);
                out.append(" bytes)");
            },
            RejectReason::Inaccessible(s) => {
                out.append("cannot inspect entry: ");
                out.append(s.as_str());
            },
            RejectReason::NotADirectory(k) => {
                out.append("not a directory (");
                out.append(k.describe());
                out.append(")");
            },
            RejectReason::Unusable(e) => {
                out.append("cannot be used in a template: ");
                out.append(e.message().as_str());
            },
        }
        assert(out@ =~= self@.text());
        out
    }
}

/// A rejected membership entry.
#[derive(Debug, PartialEq, Eq)]
pub struct Rejection {
    /// The entry name rendered safely for logs.
    pub display_name: String,
    /// Why it was rejected.
    pub reason: RejectReason,
}

/// What a rejection stands for.
#[verifier::ext_equal]
pub struct RejectionView {
    /// The entry name rendered safely for logs.
    pub display_name: Seq<char>,
    /// Why it was rejected.
    pub reason: RejectReasonView,
}

impl View for Rejection {
    type V = RejectionView;

    open spec fn view(&self) -> RejectionView {
        RejectionView { display_name: self.display_name@, reason: self.reason@ }
    }
}

impl Clone for Rejection {
    fn clone(&self) -> (r: Self)
        ensures
            r@ == self@,
    {
        Rejection { display_name: self.display_name.clone(), reason: self.reason.clone() }
    }
}

/// A directory entry as scanned: its name, and its type or why it could not
/// be inspected.
pub struct EntryView {
    /// The raw name.
    pub file_name: Seq<u8>,
    /// The type, or a description of the failure.
    pub kind: Result<EntryKind, Seq<char>>,
}

/// What was found of an entry's type.
pub open spec fn kind_view(kind: Result<EntryKind, String>) -> Result<EntryKind, Seq<char>> {
    match kind {
        Ok(k) => Ok(k),
        Err(s) => Err(s@),
    }
}

/// What classifying an entry gives: the member name, or the first rule that
/// the entry breaks. The name is checked before anything else.
pub open spec fn classified(entry: EntryView) -> Result<Seq<char>, RejectReasonView> {
    match check_name(entry.file_name) {
        Err(e) => Err(RejectReasonView::InvalidName(e)),
        Ok(name) => match entry.kind {
            Err(s) => Err(RejectReasonView::Inaccessible(s)),
            Ok(EntryKind::Regular { size }) => if size == 0 {
                Ok(name)
            } else {
                Err(RejectReasonView::NotEmpty(size))
            },
            Ok(other) => Err(RejectReasonView::NotRegularFile(other)),
        },
    }
}

/// Classifies one directory entry. `kind` is `Err` with a description if the
/// entry could not be inspected. Returns the member name if accepted.
pub fn classify(file_name: &[u8], kind: Result<EntryKind, String>) -> (r: Result<Name, Rejection>)
    ensures
        match r {
            Ok(name) => classified(EntryView { file_name: file_name@, kind: kind_view(kind) }) == Ok::<
                Seq<char>,
                RejectReasonView,
            >(name@),
            Err(rejection) => rejection@.display_name == escaped_bytes(file_name@) && classified(
                EntryView { file_name: file_name@, kind: kind_view(kind) },
            ) == Err::<Seq<char>, RejectReasonView>(rejection@.reason),
        },
{
    let reason = match Name::from_bytes(file_name) {
        Err(e) => RejectReason::InvalidName(e),
        Ok(name) => match kind {
            Err(s) => RejectReason::Inaccessible(s),
            Ok(EntryKind::Regular { size }) => {
                if size == 0 {
                    return Ok(name);
                }
                RejectReason::NotEmpty(size)
            },
            Ok(other) => RejectReason::NotRegularFile(other),
        },
    };
    Err(Rejection { display_name: display_bytes(file_name), reason })
}

/// Whether the entry is `.` or `..`.
pub open spec fn is_dot_entry(file_name: Seq<u8>) -> bool {
    file_name == seq![0x2eu8] || file_name == seq![0x2eu8, 0x2eu8]
}

/// The members among the entries.
pub open spec fn members_of(entries: Seq<EntryView>) -> Set<Seq<char>>
    decreases entries.len(),
{
    if entries.len() == 0 {
        Set::empty()
    } else {
        let before = members_of(entries.drop_last());
        match classified(entries.last()) {
            Ok(name) => before.insert(name),
            Err(_) => before,
        }
    }
}

/// The rejected entries, in the order encountered. The `.` and `..` entries
/// are skipped.
pub open spec fn rejected_of(entries: Seq<EntryView>) -> Seq<RejectionView>
    decreases entries.len(),
{
    if entries.len() == 0 {
        Seq::empty()
    } else {
        let before = rejected_of(entries.drop_last());
        let entry = entries.last();
        match classified(entry) {
            Ok(_) => before,
            Err(reason) => if is_dot_entry(entry.file_name) {
                before
            } else {
                before.push(
                    RejectionView { display_name: escaped_bytes(entry.file_name), reason },
                )
            },
        }
    }
}

/// The views of a list of rejections.
pub open spec fn rejection_views(v: Seq<Rejection>) -> Seq<RejectionView> {
    v.map_values(|r: Rejection| r@)
}

/// The entries of a scan.
pub open spec fn entry_views(v: Seq<(&[u8], Result<EntryKind, String>)>) -> Seq<EntryView> {
    v.map_values(
        |e: (&[u8], Result<EntryKind, String>)|
            EntryView { file_name: e.0@, kind: kind_view(e.1) },
    )
}

/// The result of scanning a membership directory.
#[derive(Debug, PartialEq, Eq)]
pub struct Membership {
    /// Valid members.
    pub members: KeySet<Name>,
    /// Rejected entries, in the order encountered.
    pub rejected: Vec<Rejection>,
}

impl Default for Membership {
    fn default() -> (r: Self)
        ensures
            r.members@ == Set::<Seq<char>>::empty(),
            r.rejected@.len() == 0,
    {
        Membership { members: KeySet::new(), rejected: Vec::new() }
    }
}

impl Membership {
    /// Builds membership from `(file_name, kind)` entries. The `.` and `..`
    /// directory entries are skipped silently.
    pub fn from_entries(entries: Vec<(&[u8], Result<EntryKind, String>)>) -> (r: Self)
        ensures
            r.members@ == members_of(entry_views(entries@)),
            rejection_views(r.rejected@) == rejected_of(entry_views(entries@)),
    {
        let ghost views = entry_views(entries@);
        let mut members: KeySet<Name> = KeySet::new();
        let mut rejected: Vec<Rejection> = Vec::new();
        assert(rejection_views(rejected@) =~= rejected_of(views.take(0)));
        for entry in it: entries
            invariant
                views == entry_views(it.seq()),
                members@ == members_of(views.take(it.index() as int)),
                rejection_views(rejected@) == rejected_of(views.take(it.index() as int)),
        {
            let (file_name, kind) = entry;
            let ghost i = it.index() as int;
            let ghost view = EntryView { file_name: file_name@, kind: kind_view(kind) };
            let ghost next = views.take(i + 1);
            proof {
                assert(next.drop_last() =~= views.take(i));
                assert(next.last() == view);
            }
            if is_dot(file_name) {
                assert(check_name(file_name@) == Err::<Seq<char>, NameError>(
                    NameError::LeadingDot,
                ));
            } else {
                match classify(file_name, kind) {
                    Ok(name) => {
                        members.insert(name);
                    },
                    Err(rejection) => {
                        let ghost before = rejected@;
                        let ghost added = rejection@;
                        rejected.push(rejection);
                        assert(rejection_views(rejected@) =~= rejection_views(before).push(added));
                    },
                }
            }
        }
        assert(views.take(views.len() as int) =~= views);
        Membership { members, rejected }
    }
}

/// Whether the entry is `.` or `..`.
fn is_dot(file_name: &[u8]) -> (r: bool)
    ensures
        r == is_dot_entry(file_name@),
{
    let r = (file_name.len() == 1 && file_name[0] == 0x2e) || (file_name.len() == 2 && file_name[0]
        == 0x2e && file_name[1] == 0x2e);
    proof {
        if file_name@.len() == 1 && file_name@[0] == 0x2e {
            assert(file_name@ =~= seq![0x2eu8]);
        }
        if file_name@.len() == 2 && file_name@[0] == 0x2e && file_name@[1] == 0x2e {
            assert(file_name@ =~= seq![0x2eu8, 0x2eu8]);
        }
    }
    r
}

/// Every member is a valid name, and comes from an entry that is an empty
/// regular file of exactly that name.
pub proof fn lemma_members_are_empty_files(entries: Seq<EntryView>, name: Seq<char>)
    requires
        members_of(entries).contains(name),
    ensures
        crate::name::valid_name(name),
        exists|i: int|
            0 <= i < entries.len() && check_name((#[trigger] entries[i]).file_name) == Ok::<
                Seq<char>,
                NameError,
            >(name) && entries[i].kind == Ok::<EntryKind, Seq<char>>(EntryKind::Regular { size: 0 }),
    decreases entries.len(),
{
    if entries.len() > 0 {
        let last = entries.last();
        if classified(last) == Ok::<Seq<char>, RejectReasonView>(name) {
            crate::name::lemma_check_name_valid(last.file_name);
            assert(entries[entries.len() - 1] == last);
        } else {
            lemma_members_are_empty_files(entries.drop_last(), name);
            let i = choose|i: int|
                0 <= i < entries.drop_last().len() && check_name(
                    (#[trigger] entries.drop_last()[i]).file_name,
                ) == Ok::<Seq<char>, NameError>(name) && entries.drop_last()[i].kind == Ok::<
                    EntryKind,
                    Seq<char>,
                >(EntryKind::Regular { size: 0 });
            assert(entries[i] == entries.drop_last()[i]);
        }
    }
}

// Laws.

/// Whether an entry makes the name a member: an empty regular file of that
/// name.
pub open spec fn makes_member(entry: EntryView, name: Seq<char>) -> bool {
    &&& check_name(entry.file_name) == Ok::<Seq<char>, NameError>(name)
    &&& entry.kind == Ok::<EntryKind, Seq<char>>(EntryKind::Regular { size: 0 })
}

/// An entry is a member exactly if its name is valid and it is an empty
/// regular file; nothing that is a link, a directory, a special file, has
/// content or could not be inspected ever is one.
pub proof fn law_members_are_empty_files(entry: EntryView, name: Seq<char>)
    ensures
        classified(entry) == Ok::<Seq<char>, RejectReasonView>(name) <==> makes_member(entry, name),
{
}

/// The reason of a rejection is the first rule that is broken: the name, the
/// inspection, the type, the content.
pub proof fn law_rejections_name_the_rule(entry: EntryView)
    ensures
        check_name(entry.file_name) matches Err(e) ==> classified(entry) == Err::<
            Seq<char>,
            RejectReasonView,
        >(RejectReasonView::InvalidName(e)),
        check_name(entry.file_name) is Ok ==> match entry.kind {
            Err(s) => classified(entry) == Err::<Seq<char>, RejectReasonView>(
                RejectReasonView::Inaccessible(s),
            ),
            Ok(EntryKind::Regular { size }) => size != 0 ==> classified(entry) == Err::<
                Seq<char>,
                RejectReasonView,
            >(RejectReasonView::NotEmpty(size)),
            Ok(kind) => classified(entry) == Err::<Seq<char>, RejectReasonView>(
                RejectReasonView::NotRegularFile(kind),
            ),
        },
{
}

/// The members of a directory are exactly the names of its empty regular
/// files.
pub proof fn law_members_have_an_entry(entries: Seq<EntryView>, name: Seq<char>)
    ensures
        members_of(entries).contains(name) <==> exists|i: int|
            0 <= i < entries.len() && makes_member(#[trigger] entries[i], name),
    decreases entries.len(),
{
    if entries.len() > 0 {
        let front = entries.drop_last();
        law_members_have_an_entry(front, name);
        assert(entries[entries.len() - 1] == entries.last());
        if members_of(front).contains(name) {
            let i = choose|i: int| 0 <= i < front.len() && makes_member(#[trigger] front[i], name);
            assert(entries[i] == front[i]);
        }
        if exists|i: int| 0 <= i < entries.len() && makes_member(#[trigger] entries[i], name) {
            let i = choose|i: int| 0 <= i < entries.len() && makes_member(#[trigger] entries[i], name);
            if i < front.len() {
                assert(front[i] == entries[i]);
            }
        }
    }
}

/// Whether an entry is to be rejected with the reason: it is no member, and
/// neither `.` nor `..`.
pub open spec fn is_rejected(entry: EntryView, r: RejectionView) -> bool {
    &&& classified(entry) == Err::<Seq<char>, RejectReasonView>(r.reason)
    &&& r.display_name == escaped_bytes(entry.file_name)
    &&& entry.file_name != seq![0x2eu8]
    &&& entry.file_name != seq![0x2eu8, 0x2eu8]
}

/// Every entry that is neither a member nor `.` or `..` is rejected, with its
/// name as it is shown in a log; nothing else is.
pub proof fn law_rejections_have_an_entry(entries: Seq<EntryView>, r: RejectionView)
    ensures
        rejected_of(entries).contains(r) <==> exists|i: int|
            0 <= i < entries.len() && is_rejected(#[trigger] entries[i], r),
        rejected_of(entries).len() <= entries.len(),
    decreases entries.len(),
{
    if entries.len() > 0 {
        let front = entries.drop_last();
        let before = rejected_of(front);
        let all = rejected_of(entries);
        law_rejections_have_an_entry(front, r);
        assert(entries[entries.len() - 1] == entries.last());
        if before.contains(r) {
            let i = choose|i: int| 0 <= i < front.len() && is_rejected(#[trigger] front[i], r);
            assert(entries[i] == front[i]);
            let k = choose|k: int| 0 <= k < before.len() && before[k] == r;
            assert(all[k] == r);
        }
        if all.contains(r) && !before.contains(r) {
            let k = choose|k: int| 0 <= k < all.len() && all[k] == r;
            if k < before.len() {
                assert(before[k] == r);
            }
            assert(is_rejected(entries[entries.len() - 1], r));
        }
        if exists|i: int| 0 <= i < entries.len() && is_rejected(#[trigger] entries[i], r) {
            let i = choose|i: int| 0 <= i < entries.len() && is_rejected(#[trigger] entries[i], r);
            if i < front.len() {
                assert(front[i] == entries[i]);
            } else {
                assert(all[before.len() as int] == r);
            }
        }
    } else {
        assert(!rejected_of(entries).contains(r));
    }
}

} // verus!
