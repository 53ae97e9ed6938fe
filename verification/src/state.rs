//! The state file: Byssus's record of the mounts it created.
use vstd::prelude::*;
use vstd::string::*;

use crate::identity::{DevIno, MountIdentity};
use crate::name::{group_before, GroupId, GroupIdView, Name};
use crate::order::{lemma_text_order, text_before, Key, Table};
use crate::path::AbsPath;
use crate::text::{join, split, split_text, texts};
use crate::timestamp::Timestamp;

verus! {

/// Current state file format version.
pub const STATE_VERSION: u64 = 1;

/// Permission bits of the state file.
pub const STATE_FILE_MODE: u32 = 0o640;

/// A mount Byssus created.
#[derive(Debug, PartialEq, Eq)]
pub struct MountRecord {
    /// Group.
    pub group: GroupId,
    /// Member name.
    pub name: Name,
    /// Source root at the time of mounting.
    pub source_root: AbsPath,
    /// Interpolated source path relative to `source_root`.
    pub source: String,
    /// Target root at the time of mounting.
    pub target_root: AbsPath,
    /// Interpolated target path relative to `target_root`.
    pub target: String,
    /// Reusable mount ID.
    pub mnt_id: u64,
    /// Unique mount ID, if the kernel supports it.
    pub mnt_id_unique: Option<u64>,
    /// Device major number of the mount root.
    pub root_dev_major: u32,
    /// Device minor number of the mount root.
    pub root_dev_minor: u32,
    /// Inode number of the mount root.
    pub root_ino: u64,
    /// Whether the mount was made read-only, where the record says so.
    pub read_only: Option<bool>,
    /// Whether the mount was made `noexec`, where the record says so.
    pub noexec: Option<bool>,
    /// Whether the mount was made `nosymfollow`, where the record says so.
    pub nosymfollow: Option<bool>,
    /// When the mount was created.
    pub created_at: Timestamp,
}

/// What a record stands for.
#[verifier::ext_equal]
pub struct RecordView {
    /// Group.
    pub group: GroupIdView,
    /// Member name.
    pub name: Seq<char>,
    /// Source root.
    pub source_root: Seq<char>,
    /// Source path relative to the source root.
    pub source: Seq<char>,
    /// Target root.
    pub target_root: Seq<char>,
    /// Target path relative to the target root.
    pub target: Seq<char>,
    /// Identity of the mount.
    pub identity: MountIdentity,
    /// Whether the mount was made read-only, where the record says so.
    pub read_only: Option<bool>,
    /// Whether the mount was made `noexec`, where the record says so.
    pub noexec: Option<bool>,
    /// Whether the mount was made `nosymfollow`, where the record says so.
    pub nosymfollow: Option<bool>,
    /// When the mount was created, in nanoseconds after the Unix epoch.
    pub created_at: i128,
}

impl RecordView {
    /// The key of the record.
    pub open spec fn key(self) -> KeyView {
        KeyView { group: self.group, name: self.name }
    }
}

impl View for MountRecord {
    type V = RecordView;

    open spec fn view(&self) -> RecordView {
        RecordView {
            group: self.group@,
            name: self.name@,
            source_root: self.source_root@,
            source: self.source@,
            target_root: self.target_root@,
            target: self.target@,
            identity: MountIdentity {
                mnt_id: self.mnt_id,
                mnt_id_unique: self.mnt_id_unique,
                root: DevIno {
                    dev_major: self.root_dev_major,
                    dev_minor: self.root_dev_minor,
                    ino: self.root_ino,
                },
            },
            read_only: self.read_only,
            noexec: self.noexec,
            nosymfollow: self.nosymfollow,
            created_at: self.created_at@,
        }
    }
}

impl Clone for MountRecord {
    fn clone(&self) -> (r: Self)
        ensures
            r@ == self@,
    {
        MountRecord {
            group: self.group.clone(),
            name: self.name.clone(),
            source_root: self.source_root.clone(),
            source: self.source.clone(),
            target_root: self.target_root.clone(),
            target: self.target.clone(),
            mnt_id: self.mnt_id,
            mnt_id_unique: self.mnt_id_unique,
            root_dev_major: self.root_dev_major,
            root_dev_minor: self.root_dev_minor,
            root_ino: self.root_ino,
            read_only: self.read_only,
            noexec: self.noexec,
            nosymfollow: self.nosymfollow,
            created_at: self.created_at,
        }
    }
}

impl MountRecord {
    /// The recorded identity.
    pub fn identity(&self) -> (r: MountIdentity)
        ensures
            r == self@.identity,
    {
        MountIdentity {
            mnt_id: self.mnt_id,
            mnt_id_unique: self.mnt_id_unique,
            root: DevIno {
                dev_major: self.root_dev_major,
                dev_minor: self.root_dev_minor,
                ino: self.root_ino,
            },
        }
    }

    /// The `(group, name)` key.
    pub fn key(&self) -> (r: RecordKey)
        ensures
            r@ == self@.key(),
    {
        RecordKey { group: self.group.clone(), name: self.name.clone() }
    }
}

/// Identifies a record: at most one record exists per group and member.
#[derive(Debug, PartialEq, Eq, PartialOrd, Ord, Hash)]
pub struct RecordKey {
    /// Group.
    pub group: GroupId,
    /// Member name.
    pub name: Name,
}

/// What a key stands for.
#[verifier::ext_equal]
pub struct KeyView {
    /// Group.
    pub group: GroupIdView,
    /// Member name.
    pub name: Seq<char>,
}

impl View for RecordKey {
    type V = KeyView;

    open spec fn view(&self) -> KeyView {
        KeyView { group: self.group@, name: self.name@ }
    }
}

impl Clone for RecordKey {
    fn clone(&self) -> (r: Self)
        ensures
            r@ == self@,
    {
        RecordKey { group: self.group.clone(), name: self.name.clone() }
    }
}

impl Key for RecordKey {
    open spec fn before(a: KeyView, b: KeyView) -> bool {
        group_before(a.group, b.group) || (a.group == b.group && text_before(a.name, b.name))
    }

    proof fn lemma_key_order() {
        GroupId::lemma_key_order();
        lemma_text_order();
        let group = |a: GroupIdView, b: GroupIdView| GroupId::before(a, b);
        let text = |a: Seq<char>, b: Seq<char>| text_before(a, b);
        let f = |a: KeyView, b: KeyView| Self::before(a, b);
        assert forall|a: KeyView| !#[trigger] f(a, a) by {
            assert(!group(a.group, a.group));
            assert(!text(a.name, a.name));
        }
        assert forall|a: KeyView, b: KeyView, c: KeyView| #[trigger] f(a, b) && #[trigger] f(
            b,
            c,
        ) implies f(a, c) by {
            assert(group(a.group, b.group) && group(b.group, c.group) ==> group(a.group, c.group));
            assert(text(a.name, b.name) && text(b.name, c.name) ==> text(a.name, c.name));
        }
        assert forall|a: KeyView, b: KeyView| #[trigger] f(a, b) || a == b || f(b, a) by {
            assert(group(a.group, b.group) || a.group == b.group || group(b.group, a.group));
            assert(text(a.name, b.name) || a.name == b.name || text(b.name, a.name));
        }
    }

    fn is_before(&self, other: &Self) -> (r: bool) {
        self.group.is_before(&other.group) || (self.group.same(&other.group)
            && self.name.is_before(&other.name))
    }
}

impl KeyView {
    /// The key as text: the group, `/` and the member.
    pub open spec fn text(self) -> Seq<char> {
        self.group.text() + seq!['/'] + self.name
    }
}

impl RecordKey {
    /// Whether two keys are the same.
    pub fn same(&self, other: &Self) -> (r: bool)
        ensures
            r == (self@ == other@),
    {
        self.group.same(&other.group) && self.name.same(&other.name)
    }

    /// The key as text.
    pub fn text(&self) -> (r: String)
        ensures
            r@ == self@.text(),
    {
        let mut out = self.group.text();
        out.push('/');
        out.append(self.name.as_str());
        assert(out@ =~= self@.text());
        out
    }
}

/// The in-memory set of mount records.
#[derive(Debug, PartialEq, Eq)]
pub struct State {
    records: Table<RecordKey, MountRecord>,
}

impl View for State {
    type V = Map<KeyView, RecordView>;

    closed spec fn view(&self) -> Map<KeyView, RecordView> {
        self.records@
    }
}

/// Every record stands under its own key, so there is at most one record per
/// group and member.
pub open spec fn keyed(records: Map<KeyView, RecordView>) -> bool {
    forall|k: KeyView| #[trigger] records.contains_key(k) ==> records[k].key() == k
}

impl Default for State {
    fn default() -> (r: Self)
        ensures
            r@ == Map::<KeyView, RecordView>::empty(),
    {
        State { records: Table::new() }
    }
}

impl State {
    /// Every record stands under its own key.
    #[verifier::type_invariant]
    pub open spec fn valid(&self) -> bool {
        keyed(self@)
    }

    /// The keys of the records, ordered by group then member.
    pub open spec fn keys(&self) -> Seq<KeyView> {
        crate::order::in_order::<RecordKey>(self@.dom())
    }

    /// Looks up the record for a member.
    pub fn get(&self, key: &RecordKey) -> (r: Option<&MountRecord>)
        ensures
            r is Some <==> self@.contains_key(key@),
            r matches Some(record) ==> record@ == self@[key@] && record@.key() == key@,
    {
        proof {
            use_type_invariant(self);
        }
        self.records.get(key)
    }

    /// Inserts or replaces a record, returning the previous one.
    pub fn insert(&mut self, record: MountRecord) -> (r: Option<MountRecord>)
        ensures
            final(self)@ == old(self)@.insert(record@.key(), record@),
            r is Some <==> old(self)@.contains_key(record@.key()),
            r matches Some(previous) ==> previous@ == old(self)@[record@.key()] && previous@.key()
                == record@.key(),
    {
        proof {
            use_type_invariant(&*self);
        }
        let mut records: Table<RecordKey, MountRecord> = Table::new();
        std::mem::swap(&mut records, &mut self.records);
        let r = records.insert(record.key(), record);
        self.records = records;
        r
    }

    /// Removes a record.
    pub fn remove(&mut self, key: &RecordKey) -> (r: Option<MountRecord>)
        ensures
            final(self)@ == old(self)@.remove(key@),
            r is Some <==> old(self)@.contains_key(key@),
            r matches Some(previous) ==> previous@ == old(self)@[key@],
    {
        proof {
            use_type_invariant(&*self);
        }
        let mut records: Table<RecordKey, MountRecord> = Table::new();
        std::mem::swap(&mut records, &mut self.records);
        let r = records.remove(key);
        self.records = records;
        r
    }

    /// The record at a place in the order.
    pub fn record_at(&self, i: usize) -> (r: &MountRecord)
        requires
            i < self.keys().len(),
        ensures
            self@.contains_key(self.keys()[i as int]),
            r@ == self@[self.keys()[i as int]],
            r@.key() == self.keys()[i as int],
    {
        proof {
            use_type_invariant(self);
        }
        self.records.value_at(i)
    }

    /// All records, ordered by group then member.
    pub fn records(&self) -> (r: Vec<&MountRecord>)
        ensures
            r@.len() == self.keys().len(),
            forall|i: int| 0 <= i < r@.len() ==> (#[trigger] r@[i])@ == self@[self.keys()[i]],
    {
        let mut out: Vec<&MountRecord> = Vec::new();
        let n: usize = self.len();
        let mut i: usize = 0;
        while i < n
            invariant
                i <= n,
                n == self.keys().len(),
                out@.len() == i,
                forall|j: int| 0 <= j < i ==> (#[trigger] out@[j])@ == self@[self.keys()[j]],
            decreases n - i,
        {
            out.push(self.record_at(i));
            i += 1;
        }
        out
    }

    /// Number of records.
    pub fn len(&self) -> (r: usize)
        ensures
            r == self.keys().len(),
            self.keys().to_set() == self@.dom(),
            crate::order::ascending::<RecordKey>(self.keys()),
    {
        self.records.len()
    }

    /// Whether there are no records.
    pub fn is_empty(&self) -> (r: bool)
        ensures
            r <==> self@ == Map::<KeyView, RecordView>::empty(),
    {
        self.records.is_empty()
    }
}

/// A non-empty relative path with no empty, `.` or `..` components and no NUL.
pub open spec fn clean_relative(path: Seq<char>) -> bool {
    &&& path.len() > 0
    &&& !path.contains('\0')
    &&& forall|i: int|
        0 <= i < split(path, '/').len() ==> (#[trigger] split(path, '/')[i]).len() > 0 && split(
            path,
            '/',
        )[i] != seq!['.'] && split(path, '/')[i] != seq!['.', '.']
}

/// A non-empty relative path with no empty, `.` or `..` components.
pub fn is_clean_relative(path: &str) -> (r: bool)
    ensures
        r == clean_relative(path@),
{
    let v = crate::text::chars_of(path);
    if v.len() == 0 || crate::text::contains_char(&v, '\0') {
        return false;
    }
    let parts = split_text(path, '/');
    let ghost views = split(path@, '/');
    proof {
        reveal_strlit(".");
        reveal_strlit("..");
        assert("."@ =~= seq!['.']);
        assert(".."@ =~= seq!['.', '.']);
    }
    let mut i: usize = 0;
    while i < parts.len()
        invariant
            i <= parts@.len(),
            views == split(path@, '/'),
            views == texts(parts@),
            "."@ == seq!['.'],
            ".."@ == seq!['.', '.'],
            forall|j: int|
                0 <= j < i ==> (#[trigger] views[j]).len() > 0 && views[j] != seq!['.'] && views[j]
                    != seq!['.', '.'],
        decreases parts@.len() - i,
    {
        let part = parts[i].as_str();
        assert(views[i as int] == part@);
        if part.is_empty() || crate::text::same(part, ".") || crate::text::same(part, "..") {
            return false;
        }
        i += 1;
    }
    true
}

/// A path is clean exactly if its components are: none is empty, `.` or `..`,
/// and none holds a NUL. So it does not begin with a slash.
pub proof fn law_clean_paths_have_clean_components(parts: Seq<Seq<char>>, i: int)
    requires
        0 <= i < parts.len(),
        forall|k: int| 0 <= k < parts.len() ==> !(#[trigger] parts[k]).contains('/'),
    ensures
        clean_relative(join(parts, seq!['/'])) ==> parts[i].len() > 0 && parts[i] != seq!['.']
            && parts[i] != seq!['.', '.'] && !parts[i].contains('\0') && join(parts, seq!['/'])[0]
            != '/',
        (forall|k: int|
            #![trigger parts[k]]
            0 <= k < parts.len() ==> parts[k].len() > 0 && parts[k] != seq!['.'] && parts[k] != seq![
                '.',
                '.',
            ] && !parts[k].contains('\0')) ==> clean_relative(join(parts, seq!['/'])),
{
    let path = join(parts, seq!['/']);
    crate::text::lemma_split_join(parts, '/');
    assert(split(path, '/')[i] == parts[i]);
    if clean_relative(path) {
        if parts[i].contains('\0') {
            crate::text::lemma_split_parts_within(path, '/', i, '\0');
        }
        if path[0] == '/' {
            crate::text::lemma_split_concat(Seq::empty(), '/', path.skip(1));
            assert(Seq::<char>::empty() + seq!['/'] + path.skip(1) =~= path);
            crate::text::lemma_split_single(Seq::empty(), '/');
            assert(split(path, '/')[0].len() == 0);
        }
    }
    if forall|k: int|
        #![trigger parts[k]]
        0 <= k < parts.len() ==> parts[k].len() > 0 && parts[k] != seq!['.'] && parts[k] != seq![
            '.',
            '.',
        ] && !parts[k].contains('\0') {
        assert forall|k: int| 0 <= k < split(path, '/').len() implies (
        #[trigger] split(path, '/')[k]).len() > 0 && split(path, '/')[k] != seq!['.'] && split(
            path,
            '/',
        )[k] != seq!['.', '.'] by {
            assert(split(path, '/')[k] == parts[k]);
        }
        if path.contains('\0') {
            crate::text::lemma_join_within(parts, '/', '\0');
        }
        if path.len() == 0 {
            assert(split(path, '/') =~= seq![Seq::<char>::empty()]);
            assert(parts[0].len() == 0);
        }
    }
}

} // verus!
