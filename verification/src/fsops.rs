//! What filesystem operations beneath trusted roots come to.
use vstd::prelude::*;
use vstd::string::*;

use crate::membership::EntryKind;
use crate::text::{join, join_texts, split, split_text, texts};

verus! {

/// `openat2` may fail with `EAGAIN` when a concurrent rename races with a
/// `RESOLVE_BENEATH` lookup; retry a bounded number of times.
pub const EAGAIN_RETRIES: usize = 16;

/// `ENOENT`.
pub const ENOENT: i32 = 2;

/// `EAGAIN`.
pub const EAGAIN: i32 = 11;

/// `EBUSY`.
pub const EBUSY: i32 = 16;

/// `EEXIST`.
pub const EEXIST: i32 = 17;

/// `ENOTEMPTY`.
pub const ENOTEMPTY: i32 = 39;

/// The bits of a file's mode that give its type.
pub const S_IFMT: u32 = 0o170000;

/// Whether a lookup that failed is tried again.
pub fn is_retried(attempts: usize, errno: i32) -> (r: bool)
    ensures
        r <==> errno == EAGAIN && attempts < EAGAIN_RETRIES,
{
    errno == EAGAIN && attempts < EAGAIN_RETRIES
}

/// Whether a component that could not be created can be opened all the same:
/// it exists already.
pub fn exists_already(errno: i32) -> (r: bool)
    ensures
        r <==> errno == EEXIST,
{
    errno == EEXIST
}

/// What removing an empty directory comes to: whether it was removed, or the
/// error. A directory that is not empty, is busy (a mount point) or no longer
/// exists is not removed, and that is no error.
pub fn removal(outcome: Result<(), i32>) -> (r: Result<bool, i32>)
    ensures
        r == (match outcome {
            Ok(_) => Ok::<bool, i32>(true),
            Err(errno) => if errno == ENOTEMPTY || errno == EBUSY || errno == ENOENT {
                Ok::<bool, i32>(false)
            } else {
                Err::<bool, i32>(errno)
            },
        }),
{
    match outcome {
        Ok(_) => Ok(true),
        Err(errno) => if errno == ENOTEMPTY || errno == EBUSY || errno == ENOENT {
            Ok(false)
        } else {
            Err(errno)
        },
    }
}

/// The type of a file, from its mode and size.
pub open spec fn kind_of(mode: u32, size: u64) -> EntryKind {
    let format = mode & S_IFMT;
    if format == 0o100000 {
        EntryKind::Regular { size }
    } else if format == 0o040000 {
        EntryKind::Directory
    } else if format == 0o120000 {
        EntryKind::Symlink
    } else if format == 0o010000 {
        EntryKind::Fifo
    } else if format == 0o140000 {
        EntryKind::Socket
    } else if format == 0o020000 {
        EntryKind::CharDevice
    } else if format == 0o060000 {
        EntryKind::BlockDevice
    } else {
        EntryKind::Unknown
    }
}

/// The type of a directory entry, from its mode and size as `statx` gives them.
pub fn entry_kind(mode: u32, size: u64) -> (r: EntryKind)
    ensures
        r == kind_of(mode, size),
{
    let format: u32 = mode & S_IFMT;
    if format == 0o100000 {
        EntryKind::Regular { size }
    } else if format == 0o040000 {
        EntryKind::Directory
    } else if format == 0o120000 {
        EntryKind::Symlink
    } else if format == 0o010000 {
        EntryKind::Fifo
    } else if format == 0o140000 {
        EntryKind::Socket
    } else if format == 0o020000 {
        EntryKind::CharDevice
    } else if format == 0o060000 {
        EntryKind::BlockDevice
    } else {
        EntryKind::Unknown
    }
}

/// The parent of a relative path, if it has one, and its last component.
pub open spec fn parent_and_leaf(path: Seq<char>) -> (Option<Seq<char>>, Seq<char>) {
    let parts = split(path, '/');
    (
        if parts.len() <= 1 {
            None
        } else {
            Some(join(parts.drop_last(), seq!['/']))
        },
        parts.last(),
    )
}

/// Splits a relative path into the directory that holds it, `None` for the
/// root itself, and its last component.
pub fn split_leaf(path: &str) -> (r: (Option<String>, String))
    ensures
        parent_and_leaf(path@) == (
            match r.0 {
                Some(parent) => Some(parent@),
                None => None,
            },
            r.1@,
        ),
{
    let mut parts = split_text(path, '/');
    proof {
        crate::text::lemma_split_nonempty(path@, '/');
        assert(texts(parts@).len() == parts@.len());
    }
    let ghost views = texts(parts@);
    let leaf = match parts.pop() {
        Some(leaf) => leaf,
        None => String::new(),
    };
    proof {
        assert(views.last() == leaf@);
        assert(texts(parts@) =~= views.drop_last());
        reveal_strlit("/");
        assert("/"@ =~= seq!['/']);
    }
    if parts.len() == 0 {
        (None, leaf)
    } else {
        (Some(join_texts(&parts, "/")), leaf)
    }
}

/// A path is its parent, `/` and its leaf, and the leaf is one component.
pub proof fn law_parent_and_leaf_make_up_the_path(path: Seq<char>)
    ensures
        ({
            let (parent, leaf) = parent_and_leaf(path);
            &&& !leaf.contains('/')
            &&& path == (match parent {
                Some(parent) => parent + seq!['/'] + leaf,
                None => leaf,
            })
        }),
{
    let parts = split(path, '/');
    crate::text::lemma_split_nonempty(path, '/');
    crate::text::lemma_join_split(path, '/');
    crate::text::lemma_split_parts_clean(path, '/');
    assert(parts.last() == parts[parts.len() - 1]);
    if parts.len() == 1 {
        assert(parts.drop_last() =~= Seq::empty());
    }
    assert(path =~= (match parent_and_leaf(path).0 {
        Some(parent) => parent + seq!['/'] + parts.last(),
        None => parts.last(),
    }));
}

/// What an entry is goes by the type bits of its mode alone; permissions do not
/// matter. Only a regular file has its size told.
pub proof fn law_kinds_go_by_the_type_bits(mode: u32, other: u32, size: u64)
    ensures
        kind_of(mode, size) == (EntryKind::Regular { size }) <==> mode & 0o170000 == 0o100000,
        kind_of(mode, size) == EntryKind::Directory <==> mode & 0o170000 == 0o040000,
        kind_of(mode, size) == EntryKind::Symlink <==> mode & 0o170000 == 0o120000,
        kind_of(mode, size) == EntryKind::Fifo <==> mode & 0o170000 == 0o010000,
        kind_of(mode, size) == EntryKind::Socket <==> mode & 0o170000 == 0o140000,
        kind_of(mode, size) == EntryKind::CharDevice <==> mode & 0o170000 == 0o020000,
        kind_of(mode, size) == EntryKind::BlockDevice <==> mode & 0o170000 == 0o060000,
        mode & 0o170000 == other & 0o170000 ==> kind_of(mode, size) == kind_of(other, size),
{
}

} // verus!
