//! Service user resolution from passwd- and group-format text.
//!
//! Only local users are supported for the service account.
use vstd::prelude::*;
use vstd::string::*;

use crate::order::{ascending, in_order, strict_order, Key, KeySet};
use crate::parse::{lines, lines_of, number, parse_u32};
use crate::privileges::plan::{ServiceUser, ServiceUserView};
use crate::text::{decimal, join, split, split_text, texts};

verus! {

impl Key for u32 {
    open spec fn before(a: u32, b: u32) -> bool {
        a < b
    }

    proof fn lemma_key_order() {
        let f = |a: u32, b: u32| Self::before(a, b);
        assert(strict_order(f));
    }

    fn is_before(&self, other: &Self) -> (r: bool) {
        assert(<u32 as Key>::before(self@, other@) == (self@ < other@));
        *self < *other
    }
}

/// A number in a field, if it is one.
pub open spec fn id_field(field: Seq<char>) -> Option<u32> {
    match number(field, 10, u32::MAX as nat) {
        Ok(n) => Some(n as u32),
        Err(_) => None,
    }
}

fn read_id(field: &str) -> (r: Option<u32>)
    ensures
        r == id_field(field@),
{
    match parse_u32(field) {
        Ok(n) => Some(n),
        Err(_) => None,
    }
}

/// The user and group IDs that a password line gives for `name`, if it is that
/// user's line and both are numbers.
pub open spec fn user_entry(line: Seq<char>, name: Seq<char>) -> Option<(u32, u32)> {
    let fields = split(line, ':');
    if fields[0] == name && fields.len() >= 4 {
        match (id_field(fields[2]), id_field(fields[3])) {
            (Some(uid), Some(gid)) => Some((uid, gid)),
            _ => None,
        }
    } else {
        None
    }
}

/// What the first line that gives IDs for `name` says.
pub open spec fn first_entry(all: Seq<Seq<char>>, name: Seq<char>) -> Option<(u32, u32)>
    decreases all.len(),
{
    if all.len() == 0 {
        None
    } else {
        match first_entry(all.drop_last(), name) {
            Some(ids) => Some(ids),
            None => user_entry(all.last(), name),
        }
    }
}

fn read_user(line: &str, name: &str) -> (r: Option<(u32, u32)>)
    ensures
        r == user_entry(line@, name@),
{
    let fields = split_text(line, ':');
    let ghost views = split(line@, ':');
    proof {
        assert(views.len() == fields@.len());
        assert(views[0] == fields@[0]@);
    }
    if !crate::text::same(fields[0].as_str(), name) || fields.len() < 4 {
        return None;
    }
    proof {
        assert(views[2] == fields@[2]@);
        assert(views[3] == fields@[3]@);
    }
    match (read_id(fields[2].as_str()), read_id(fields[3].as_str())) {
        (Some(uid), Some(gid)) => Some((uid, gid)),
        _ => None,
    }
}

proof fn lemma_first_stays(all: Seq<Seq<char>>, name: Seq<char>, n: int)
    requires
        0 <= n <= all.len(),
        first_entry(all.take(n), name) is Some,
    ensures
        first_entry(all, name) == first_entry(all.take(n), name),
    decreases all.len() - n,
{
    if n < all.len() {
        assert(all.take(n + 1).drop_last() =~= all.take(n));
        lemma_first_stays(all, name, n + 1);
    } else {
        assert(all.take(n) =~= all);
    }
}

/// Finds `(uid, gid)` for `name` in passwd-format text.
pub fn find_user(passwd: &str, name: &str) -> (r: Option<(u32, u32)>)
    ensures
        r == first_entry(lines(passwd@), name@),
{
    let all = lines_of(passwd);
    let ghost views = lines(passwd@);
    let mut i: usize = 0;
    while i < all.len()
        invariant
            i <= all@.len(),
            views == texts(all@),
            views == lines(passwd@),
            first_entry(views.take(i as int), name@) is None,
        decreases all@.len() - i,
    {
        proof {
            assert(views.take(i + 1).drop_last() =~= views.take(i as int));
            assert(views.take(i + 1).last() == all@[i as int]@);
        }
        if let Some(ids) = read_user(all[i].as_str(), name) {
            proof {
                lemma_first_stays(views, name@, i + 1);
            }
            return Some(ids);
        }
        i += 1;
    }
    assert(views.take(views.len() as int) =~= views);
    None
}

/// The group ID of a group line whose member list holds `name`.
pub open spec fn group_entry(line: Seq<char>, name: Seq<char>) -> Option<u32> {
    let fields = split(line, ':');
    if fields.len() >= 4 && split(fields[3], ',').contains(name) {
        id_field(fields[2])
    } else {
        None
    }
}

/// The IDs of the groups that list `name`, among the first `n` lines.
pub open spec fn groups_with(all: Seq<Seq<char>>, name: Seq<char>, n: int) -> Set<u32> {
    Set::new(|g: u32| exists|i: int| 0 <= i < n && group_entry(#[trigger] all[i], name) == Some(g))
}

fn lists_member(members: &Vec<String>, name: &str) -> (r: bool)
    ensures
        r == texts(members@).contains(name@),
{
    let mut i: usize = 0;
    while i < members.len()
        invariant
            i <= members@.len(),
            forall|j: int| 0 <= j < i ==> (#[trigger] members@[j])@ != name@,
        decreases members@.len() - i,
    {
        if crate::text::same(members[i].as_str(), name) {
            assert(texts(members@)[i as int] == name@);
            return true;
        }
        i += 1;
    }
    proof {
        if texts(members@).contains(name@) {
            let j = choose|j: int| 0 <= j < texts(members@).len() && texts(members@)[j] == name@;
            assert(members@[j]@ == name@);
        }
    }
    false
}

fn read_group(line: &str, name: &str) -> (r: Option<u32>)
    ensures
        r == group_entry(line@, name@),
{
    let fields = split_text(line, ':');
    let ghost views = split(line@, ':');
    assert(views.len() == fields@.len());
    if fields.len() < 4 {
        return None;
    }
    proof {
        assert(views[2] == fields@[2]@);
        assert(views[3] == fields@[3]@);
    }
    let members = split_text(fields[3].as_str(), ',');
    if lists_member(&members, name) {
        read_id(fields[2].as_str())
    } else {
        None
    }
}

/// Group IDs whose member list (fourth field) includes `name`, in ascending
/// order and each once.
pub fn supplementary_groups(group: &str, name: &str) -> (r: Vec<u32>)
    ensures
        ascending::<u32>(r@),
        r@.to_set() == groups_with(lines(group@), name@, lines(group@).len() as int),
{
    let all = lines_of(group);
    let ghost views = lines(group@);
    let mut gids: KeySet<u32> = KeySet::new();
    let mut i: usize = 0;
    assert(gids@ =~= groups_with(views, name@, 0));
    while i < all.len()
        invariant
            i <= all@.len(),
            views == texts(all@),
            gids@ == groups_with(views, name@, i as int),
        decreases all@.len() - i,
    {
        let ghost before = gids@;
        assert(views[i as int] == all@[i as int]@);
        if let Some(gid) = read_group(all[i].as_str(), name) {
            let _ = gids.insert(gid);
        }
        i += 1;
        assert(gids@ =~= groups_with(views, name@, i as int)) by {
            assert forall|g: u32| #[trigger] gids@.contains(g) implies groups_with(
                views,
                name@,
                i as int,
            ).contains(g) by {
                if before.contains(g) {
                    let j = choose|j: int|
                        0 <= j < i - 1 && group_entry(#[trigger] views[j], name@) == Some(g);
                    assert(group_entry(views[j], name@) == Some(g));
                } else {
                    assert(group_entry(views[i - 1], name@) == Some(g));
                }
            }
            assert forall|g: u32| #[trigger]
                groups_with(views, name@, i as int).contains(g) implies gids@.contains(g) by {
                let j = choose|j: int|
                    0 <= j < i && group_entry(#[trigger] views[j], name@) == Some(g);
                if j < i - 1 {
                    assert(before.contains(g));
                }
            }
        }
    }
    assert(texts(all@).len() == all@.len());
    let n: usize = gids.len();
    let ghost keys = gids.keys();
    let mut out: Vec<u32> = Vec::new();
    let mut k: usize = 0;
    while k < n
        invariant
            k <= n,
            n == keys.len(),
            keys == gids.keys(),
            out@ =~= keys.take(k as int),
        decreases n - k,
    {
        out.push(*gids.at(k));
        k += 1;
    }
    assert(out@ =~= keys);
    out
}

/// Why a user could not be resolved.
#[derive(Debug, PartialEq, Eq)]
pub enum ResolveError {
    /// No such user in the password file.
    NotFound(String, String),
    /// A file could not be read.
    Io {
        /// File path.
        path: String,
        /// Underlying error.
        source: String,
    },
}

/// The text of a failure to resolve a user.
pub open spec fn resolve_error_text(e: ResolveError) -> Seq<char> {
    match e {
        ResolveError::NotFound(name, path) => "user '"@ + name@ + "' not found in "@ + path@,
        ResolveError::Io { path, source } => "cannot read "@ + path@ + ": "@ + source@,
    }
}

impl ResolveError {
    /// Describes the failure.
    pub fn message(&self) -> (r: String)
        ensures
            r@ == resolve_error_text(*self),
    {
        let mut out = String::new();
        match self {
            ResolveError::NotFound(name, path) => {
                out.append("user '");
                out.append(name.as_str());
                out.append("' not found in ");
                out.append(path.as_str());
            },
            ResolveError::Io { path, source } => {
                out.append("cannot read ");
                out.append(path.as_str());
                out.append(": ");
                out.append(source.as_str());
            },
        }
        assert(out@ =~= resolve_error_text(*self));
        out
    }
}

/// The IDs without one of them, in order.
pub open spec fn without_id(ids: Seq<u32>, id: u32) -> Seq<u32>
    decreases ids.len(),
{
    if ids.len() == 0 {
        Seq::empty()
    } else {
        let front = without_id(ids.drop_last(), id);
        if ids.last() == id {
            front
        } else {
            front.push(ids.last())
        }
    }
}

/// A file that was to be read, and what came of it.
#[derive(Debug)]
pub struct ReadText {
    /// Its path.
    pub path: String,
    /// Its text, or why it could not be read.
    pub text: Result<String, String>,
}

/// Whether `user` is what the two files say of `name`.
pub open spec fn resolved_as(
    user: ServiceUserView,
    name: Seq<char>,
    passwd: Seq<char>,
    group: Seq<char>,
) -> bool {
    let all = lines(group);
    &&& user.name == name
    &&& first_entry(lines(passwd), name) == Some((user.uid, user.gid))
    &&& user.groups == without_id(
        in_order::<u32>(groups_with(all, name, all.len() as int)),
        user.gid,
    )
}

/// Resolves `name` from the password and group files. The group file matters
/// only for a user that is found.
pub fn resolve_from(name: &str, passwd: ReadText, group: ReadText) -> (r: Result<
    ServiceUser,
    ResolveError,
>)
    ensures
        match passwd.text {
            Err(e) => r matches Err(ResolveError::Io { path, source }) && path@ == passwd.path@
                && source@ == e@,
            Ok(passwd_text) => if first_entry(lines(passwd_text@), name@) is None {
                r matches Err(ResolveError::NotFound(n, p)) && n@ == name@ && p@ == passwd.path@
            } else {
                match group.text {
                    Err(e) => r matches Err(ResolveError::Io { path, source }) && path@
                        == group.path@ && source@ == e@,
                    Ok(group_text) => r matches Ok(user) && resolved_as(
                        user@,
                        name@,
                        passwd_text@,
                        group_text@,
                    ),
                }
            },
        },
{
    let passwd_text = match passwd.text {
        Ok(text) => text,
        Err(source) => {
            return Err(ResolveError::Io { path: passwd.path, source });
        },
    };
    let (uid, gid) = match find_user(passwd_text.as_str(), name) {
        Some(ids) => ids,
        None => {
            return Err(ResolveError::NotFound(name.to_owned(), passwd.path));
        },
    };
    let group_text = match group.text {
        Ok(text) => text,
        Err(source) => {
            return Err(ResolveError::Io { path: group.path, source });
        },
    };
    let all = supplementary_groups(group_text.as_str(), name);
    let mut groups: Vec<u32> = Vec::new();
    let mut i: usize = 0;
    assert(groups@ =~= without_id(all@.take(0), gid));
    while i < all.len()
        invariant
            i <= all@.len(),
            groups@ == without_id(all@.take(i as int), gid),
        decreases all@.len() - i,
    {
        proof {
            assert(all@.take(i + 1).drop_last() =~= all@.take(i as int));
            assert(all@.take(i + 1).last() == all@[i as int]);
        }
        if all[i] != gid {
            groups.push(all[i]);
        }
        i += 1;
    }
    proof {
        assert(all@.take(all@.len() as int) =~= all@);
        crate::order::lemma_in_order::<u32>(all@);
    }
    Ok(ServiceUser { name: name.to_owned(), uid, gid, groups })
}

// Laws.

/// The line that fields make up.
pub open spec fn line_of(fields: Seq<Seq<char>>) -> Seq<char> {
    join(fields, seq![':'])
}

/// Whether a list of fields can stand on one line.
pub open spec fn are_fields(fields: Seq<Seq<char>>) -> bool {
    forall|i: int| 0 <= i < fields.len() ==> !(#[trigger] fields[i]).contains(':')
}

proof fn lemma_id_is_read_back(id: u32)
    ensures
        id_field(decimal(id as nat)) == Some(id),
{
    crate::parse::law_decimals_are_read_back(id as nat, u32::MAX as nat);
}

proof fn lemma_first_of_user(all: Seq<Seq<char>>, name: Seq<char>, n: int)
    requires
        0 <= n <= all.len(),
        forall|j: int| 0 <= j < n ==> split(#[trigger] all[j], ':')[0] != name,
    ensures
        first_entry(all.take(n), name) is None,
    decreases n,
{
    if n > 0 {
        lemma_first_of_user(all, name, n - 1);
        assert(all.take(n).drop_last() =~= all.take(n - 1));
        assert(all.take(n).last() == all[n - 1]);
    }
}

/// A password line gives its third field as the user ID and its fourth as the
/// group ID of the user that its first field names, if no earlier line names
/// that user. What the other fields hold, and how many there are, does not
/// matter.
pub proof fn law_users_get_the_ids_of_their_line(
    user: ServiceUserView,
    passwd: Seq<char>,
    group: Seq<char>,
    i: int,
    name: Seq<char>,
    password: Seq<char>,
    uid: u32,
    gid: u32,
    rest: Seq<Seq<char>>,
)
    requires
        0 <= i < lines(passwd).len(),
        are_fields(seq![name, password] + rest),
        lines(passwd)[i] == line_of(
            seq![name, password, decimal(uid as nat), decimal(gid as nat)] + rest,
        ),
        forall|j: int| 0 <= j < i ==> split(#[trigger] lines(passwd)[j], ':')[0] != name,
    ensures
        first_entry(lines(passwd), name) == Some((uid, gid)),
        resolved_as(user, name, passwd, group) ==> user.name == name && user.uid == uid && user.gid
            == gid,
{
    let all = lines(passwd);
    let fields = seq![name, password, decimal(uid as nat), decimal(gid as nat)] + rest;
    let given = seq![name, password] + rest;
    assert(given[0] == name && given[1] == password);
    crate::parse::law_decimals_are_read_back(uid as nat, u32::MAX as nat);
    crate::parse::law_decimals_are_read_back(gid as nat, u32::MAX as nat);
    assert forall|k: int| 0 <= k < fields.len() implies !(#[trigger] fields[k]).contains(':') by {
        if k >= 4 {
            assert(fields[k] == given[k - 2]);
        } else if k < 2 {
            assert(fields[k] == given[k]);
        }
    }
    crate::text::lemma_split_join(fields, ':');
    lemma_id_is_read_back(uid);
    lemma_id_is_read_back(gid);
    lemma_first_of_user(all, name, i);
    assert(all.take(i + 1).drop_last() =~= all.take(i));
    assert(all.take(i + 1).last() == all[i]);
    lemma_first_stays(all, name, i + 1);
}

/// A user that no line names is not found.
pub proof fn law_unnamed_users_are_not_found(passwd: Seq<char>, name: Seq<char>)
    requires
        forall|j: int|
            0 <= j < lines(passwd).len() ==> split(#[trigger] lines(passwd)[j], ':')[0] != name,
    ensures
        first_entry(lines(passwd), name) is None,
{
    let all = lines(passwd);
    lemma_first_of_user(all, name, all.len() as int);
    assert(all.take(all.len() as int) =~= all);
}

proof fn lemma_without_id(ids: Seq<u32>, id: u32)
    requires
        forall|i: int, j: int| 0 <= i < j < ids.len() ==> ids[i] < ids[j],
    ensures
        forall|g: u32| #[trigger] without_id(ids, id).contains(g) <==> ids.contains(g) && g != id,
        forall|i: int, j: int|
            0 <= i < j < without_id(ids, id).len() ==> without_id(ids, id)[i] < without_id(
                ids,
                id,
            )[j],
    decreases ids.len(),
{
    if ids.len() > 0 {
        let front = ids.drop_last();
        let last = ids.last();
        let kept = without_id(front, id);
        let all = without_id(ids, id);
        assert(forall|i: int, j: int| 0 <= i < j < front.len() ==> front[i] < front[j]);
        lemma_without_id(front, id);
        assert(ids =~= front.push(last));
        assert forall|g: u32| ids.contains(g) <==> front.contains(g) || g == last by {
            if front.contains(g) {
                let i = choose|i: int| 0 <= i < front.len() && front[i] == g;
                assert(ids[i] == g);
            }
            if ids.contains(g) && g != last {
                let i = choose|i: int| 0 <= i < ids.len() && ids[i] == g;
                assert(front[i] == g);
            }
            assert(ids[ids.len() - 1] == last);
        }
        assert forall|g: u32| #[trigger] all.contains(g) implies ids.contains(g) && g != id by {
            let i = choose|i: int| 0 <= i < all.len() && all[i] == g;
            if i < kept.len() {
                assert(kept[i] == g);
                assert(kept.contains(g));
            }
        }
        assert forall|g: u32| ids.contains(g) && g != id implies #[trigger] all.contains(g) by {
            if front.contains(g) {
                assert(kept.contains(g));
                let i = choose|i: int| 0 <= i < kept.len() && kept[i] == g;
                assert(all[i] == g);
            } else {
                assert(all[all.len() - 1] == g);
            }
        }
        assert forall|i: int, j: int| 0 <= i < j < all.len() implies all[i] < all[j] by {
            if j == kept.len() {
                assert(kept.contains(kept[i]));
                let k = choose|k: int| 0 <= k < front.len() && front[k] == kept[i];
                assert(ids[k] < ids[ids.len() - 1]);
            }
        }
    }
}

proof fn lemma_groups_finite(all: Seq<Seq<char>>, name: Seq<char>, n: int)
    requires
        0 <= n <= all.len(),
    ensures
        groups_with(all, name, n).finite(),
    decreases n,
{
    if n == 0 {
        assert(groups_with(all, name, 0) =~= Set::empty());
    } else {
        lemma_groups_finite(all, name, n - 1);
        let front = groups_with(all, name, n - 1);
        let whole = groups_with(all, name, n);
        let bound = match group_entry(all[n - 1], name) {
            Some(g) => front.insert(g),
            None => front,
        };
        assert forall|g: u32| #[trigger] whole.contains(g) implies bound.contains(g) by {
            let i = choose|i: int| 0 <= i < n && group_entry(#[trigger] all[i], name) == Some(g);
            if i < n - 1 {
                assert(front.contains(g));
            }
        }
        vstd::set_lib::lemma_len_subset(whole, bound);
    }
}

proof fn lemma_resolved_groups(
    user: ServiceUserView,
    name: Seq<char>,
    passwd: Seq<char>,
    group: Seq<char>,
)
    requires
        resolved_as(user, name, passwd, group),
    ensures
        forall|g: u32| #[trigger]
            user.groups.contains(g) <==> g != user.gid && groups_with(
                lines(group),
                name,
                lines(group).len() as int,
            ).contains(g),
        forall|i: int, j: int| 0 <= i < j < user.groups.len() ==> user.groups[i] < user.groups[j],
{
    let all = lines(group);
    let found = groups_with(all, name, all.len() as int);
    lemma_groups_finite(all, name, all.len() as int);
    crate::order::lemma_in_order_finite::<u32>(found);
    let ids = in_order::<u32>(found);
    assert forall|i: int, j: int| 0 <= i < j < ids.len() implies ids[i] < ids[j] by {
        assert(u32::before(ids[i], ids[j]));
    }
    lemma_without_id(ids, user.gid);
    assert forall|g: u32| #[trigger]
        user.groups.contains(g) <==> g != user.gid && found.contains(g) by {
        assert(ids.to_set().contains(g) == found.contains(g));
    }
}

/// A user is in the group of every group line whose fourth field lists the
/// user among its comma-separated members; the ID is the third field. The
/// user's own group is left out, as it is no supplementary one.
pub proof fn law_listed_users_are_in_the_group(
    user: ServiceUserView,
    name: Seq<char>,
    passwd: Seq<char>,
    group: Seq<char>,
    i: int,
    title: Seq<char>,
    password: Seq<char>,
    gid: u32,
    members: Seq<Seq<char>>,
)
    requires
        resolved_as(user, name, passwd, group),
        0 <= i < lines(group).len(),
        members.contains(name),
        forall|k: int|
            0 <= k < members.len() ==> !(#[trigger] members[k]).contains(',')
                && !members[k].contains(':'),
        are_fields(seq![title, password]),
        lines(group)[i] == line_of(
            seq![title, password, decimal(gid as nat), join(members, seq![','])],
        ),
    ensures
        user.groups.contains(gid) <==> gid != user.gid,
{
    let all = lines(group);
    let given = seq![title, password];
    assert(given[0] == title && given[1] == password);
    let fields = seq![title, password, decimal(gid as nat), join(members, seq![','])];
    crate::parse::law_decimals_are_read_back(gid as nat, u32::MAX as nat);
    if fields[3].contains(':') {
        crate::text::lemma_join_within(members, ',', ':');
        let k = choose|k: int| 0 <= k < members.len() && (#[trigger] members[k]).contains(':');
    }
    assert forall|k: int| 0 <= k < fields.len() implies !(#[trigger] fields[k]).contains(':') by {
        if k < 2 {
            assert(fields[k] == given[k]);
        }
    }
    crate::text::lemma_split_join(fields, ':');
    crate::text::lemma_split_join(members, ',');
    lemma_id_is_read_back(gid);
    lemma_resolved_groups(user, name, passwd, group);
    assert(group_entry(all[i], name) == Some(gid));
}

/// A user has no other groups than those of lines that list it, each once and
/// in ascending order.
pub proof fn law_only_listed_users_are_in_a_group(
    user: ServiceUserView,
    name: Seq<char>,
    passwd: Seq<char>,
    group: Seq<char>,
    k: int,
)
    requires
        resolved_as(user, name, passwd, group),
        0 <= k < user.groups.len(),
    ensures
        user.groups[k] != user.gid,
        k > 0 ==> user.groups[k - 1] < user.groups[k],
        exists|i: int|
            0 <= i < lines(group).len() && split(#[trigger] lines(group)[i], ':').len() >= 4
                && split(split(lines(group)[i], ':')[3], ',').contains(name) && number(
                split(lines(group)[i], ':')[2],
                10,
                u32::MAX as nat,
            ) == Ok::<nat, crate::parse::NumberError>(user.groups[k] as nat),
{
    let all = lines(group);
    lemma_resolved_groups(user, name, passwd, group);
    assert(user.groups.contains(user.groups[k]));
    let i = choose|i: int|
        0 <= i < all.len() && group_entry(#[trigger] all[i], name) == Some(user.groups[k]);
    lemma_number_bound(split(all[i], ':')[2], u32::MAX as nat);
}

proof fn lemma_number_bound(s: Seq<char>, max: nat)
    ensures
        number(s, 10, max) matches Ok(n) ==> n <= max,
{
    if s.len() > 0 {
        let digits = if s[0] == '+' && s.len() > 1 {
            s.skip(1)
        } else {
            s
        };
        assert(crate::parse::digits_value(digits, 10, max) == number(s, 10, max));
    }
}

} // verus!
