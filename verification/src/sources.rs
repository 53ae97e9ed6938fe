//! What is asked of the configuration files: which of them are read, who may
//! write them, and which directories they name.
use vstd::prelude::*;

use crate::config::{
    all_messages, dir_issue, error, examined_messages, fragment_issues, fragment_sources,
    gather_issues, gathered, group_dirs, groups_dirs, has_error, is_fragment_name,
    named_dirs, octal, owned_paths, ownership_of, parse_issues, parsed_of, set_dirs, sets_dirs,
    unparsed_of, user_char, valid_user_name, ConfigView, DirOutcome, DocumentView, ExaminedView,
    FragmentView, GroupView, IssueView, ListView, NamedDirView, OptionsView, OwnershipPolicy,
    ParsedView, ReadView, Severity, SourceView,
};
use crate::load::{files_of, look_issues, owner_issues, validated_of, GatheredView, ResolvedView};
use crate::name::Name;
use crate::order::{in_order, lemma_in_both, lemma_in_push};
use crate::sets::SetView;
use crate::text::{byte_len, digit};

verus! {

/// A fragment is whatever is named `*.toml` and does not begin with a dot.
pub proof fn law_fragments_are_named_toml(stem: Seq<u8>)
    ensures
        is_fragment_name(stem + seq![0x2eu8, 0x74, 0x6f, 0x6d, 0x6c]) <==> stem.len() > 0
            && stem[0] != 0x2e,
        is_fragment_name(stem) ==> exists|n: int|
            0 < n < stem.len() && #[trigger] stem.skip(n) == seq![0x2eu8, 0x74, 0x6f, 0x6d, 0x6c],
{
    let toml = seq![0x2eu8, 0x74, 0x6f, 0x6d, 0x6c];
    let name = stem + toml;
    assert(name.subrange(name.len() - 5, name.len() as int) =~= toml);
    if stem.len() == 0 {
        assert(name[0] == 0x2e);
    }
    if is_fragment_name(stem) {
        let n = stem.len() - 5;
        assert(stem.skip(n) =~= toml);
        if n == 0 {
            assert(stem.skip(0)[0] == stem[0]);
        }
    }
}

/// A user name is 1 to 32 bytes of ASCII letters, digits, underscores, dots and
/// dashes; it does not begin with a dash, and a dollar sign may follow it.
pub proof fn law_user_names_are_conventional(user: Seq<char>)
    ensures
        valid_user_name(user) <==> {
            &&& 1 <= user.len()
            &&& byte_len(user) <= 32
            &&& user[0] != '-' && user[0] != '$'
            &&& forall|i: int|
                #![trigger user[i]]
                0 <= i < user.len() ==> {
                    ||| 'a' <= user[i] <= 'z'
                    ||| 'A' <= user[i] <= 'Z'
                    ||| '0' <= user[i] <= '9'
                    ||| user[i] == '_' || user[i] == '.' || user[i] == '-'
                    ||| user[i] == '$' && i == user.len() - 1
                }
        },
{
    let body = crate::config::user_body(user);
    if user.len() > 0 && user.last() == '$' {
        assert forall|i: int| 0 <= i < body.len() implies body[i] == user[i] by {
        }
        if valid_user_name(user) {
            assert forall|i: int|
                #![trigger user[i]]
                0 <= i < user.len() - 1 implies user_char(user[i]) by {
                assert(user_char(body[i]));
            }
            assert(user_char(body[0]));
            assert(body[0] == user[0]);
        }
    } else if valid_user_name(user) {
        assert(user_char(user[0]));
    }
}

/// Whether only the trusted user may write: nobody else owns it, and neither
/// the group nor others have the write bit.
pub open spec fn is_trusted(e: ExaminedView, trusted_uid: u32) -> bool {
    e.outcome matches Ok((uid, mode)) && uid == trusted_uid && mode & 0o020 == 0 && mode & 0o002
        == 0
}

/// A file or directory is objected to exactly if it could not be looked at, or
/// somebody else than the trusted user may write it.
pub proof fn law_only_the_trusted_user_may_write(e: ExaminedView, trusted_uid: u32)
    ensures
        examined_messages(e, trusted_uid).len() == 0 <==> is_trusted(e, trusted_uid),
{
    if let Ok((uid, mode)) = e.outcome {
        assert(mode & 0o022 == 0 <==> mode & 0o020 == 0 && mode & 0o002 == 0) by (bit_vector);
    }
}

proof fn lemma_octal_digits(m: u32)
    by (bit_vector)
    requires
        m < 4096,
    ensures
        m / 512 < 8,
        m / 512 % 8 == m / 512,
        m / 512 * 512 + m / 64 % 8 * 64 + m / 8 % 8 * 8 + m % 8 == m,
{
}

/// The mode of a file is shown in four octal digits.
pub proof fn law_modes_are_shown_in_octal(mode: u32)
    ensures
        octal(mode).len() == 4,
        forall|i: int| 0 <= i < 4 ==> '0' <= #[trigger] octal(mode)[i] <= '7',
        (octal(mode)[0] as int - '0' as int) * 512 + (octal(mode)[1] as int - '0' as int) * 64 + (
        octal(mode)[2] as int - '0' as int) * 8 + (octal(mode)[3] as int - '0' as int) == mode
            & 0o7777,
{
    let m: u32 = mode & 0o7777;
    assert(m < 4096) by (bit_vector)
        requires
            m == mode & 0o7777,
    ;
    lemma_octal_digits(m);
    let a = (m / 512) as nat;
    let b = (m / 64 % 8) as nat;
    let c = (m / 8 % 8) as nat;
    let d = (m % 8) as nat;
    assert(octal(mode) =~= seq![digit(a), digit(b), digit(c), digit(d)]);
    assert(digit(a) as int == '0' as int + a);
    assert(digit(b) as int == '0' as int + b);
    assert(digit(c) as int == '0' as int + c);
    assert(digit(d) as int == '0' as int + d);
}

proof fn lemma_all_messages(examined: Seq<ExaminedView>, trusted_uid: u32)
    ensures
        all_messages(examined, trusted_uid).len() == 0 <==> forall|i: int|
            0 <= i < examined.len() ==> is_trusted(#[trigger] examined[i], trusted_uid),
    decreases examined.len(),
{
    if examined.len() > 0 {
        let front = examined.drop_last();
        lemma_all_messages(front, trusted_uid);
        law_only_the_trusted_user_may_write(examined.last(), trusted_uid);
        assert(examined[examined.len() - 1] == examined.last());
        assert forall|i: int| 0 <= i < front.len() implies #[trigger] examined[i] == front[i] by {
        }
        if all_messages(front, trusted_uid).len() > 0 {
            let i = choose|i: int|
                0 <= i < front.len() && !is_trusted(#[trigger] front[i], trusted_uid);
            assert(!is_trusted(examined[i], trusted_uid));
        }
    }
}

/// A configuration path is accepted exactly if it resolves and only the trusted
/// user may write the file and every directory looked at. What is wrong is an
/// error where ownership is enforced, a warning where it is not, and names the
/// path.
pub proof fn law_untrusted_files_are_reported(
    path: Seq<char>,
    options: OptionsView,
    resolved: ResolvedView,
)
    ensures
        ({
            let issues = ownership_of(path, options, resolved);
            &&& issues.len() == 0 <==> (resolved matches Ok(examined) && forall|i: int|
                0 <= i < examined.len() ==> is_trusted(
                    #[trigger] examined[i],
                    options.trusted_uid,
                ))
            &&& forall|i: int|
                0 <= i < issues.len() ==> (#[trigger] issues[i]).file == Some(path)
                    && issues[i].group is None && (issues[i].severity == Severity::Error
                    <==> options.ownership == OwnershipPolicy::Enforce)
            &&& has_error(issues) <==> issues.len() > 0 && options.ownership
                == OwnershipPolicy::Enforce
        }),
{
    let issues = ownership_of(path, options, resolved);
    if let Ok(examined) = resolved {
        lemma_all_messages(examined, options.trusted_uid);
    }
    if issues.len() > 0 {
        assert(issues[0].severity == Severity::Error || issues[0].severity == Severity::Warning);
    }
}

/// Every path that was looked at is judged by what was found of it.
pub proof fn law_every_path_is_judged(
    paths: Seq<Seq<char>>,
    options: OptionsView,
    found: Seq<ResolvedView>,
    issue: IssueView,
)
    ensures
        owner_issues(paths, options, found).contains(issue) <==> exists|i: int|
            0 <= i < paths.len() && (#[trigger] ownership_of(
                paths[i],
                options,
                found[i],
            )).contains(issue),
    decreases paths.len(),
{
    if paths.len() > 0 {
        let front = paths.drop_last();
        law_every_path_is_judged(front, options, found, issue);
        let last = ownership_of(paths.last(), options, found[paths.len() - 1]);
        lemma_in_both(owner_issues(front, options, found), last, issue);
        assert(paths[paths.len() - 1] == paths.last());
        if owner_issues(front, options, found).contains(issue) {
            let i = choose|i: int|
                0 <= i < front.len() && (#[trigger] ownership_of(
                    front[i],
                    options,
                    found[i],
                )).contains(issue);
            assert(front[i] == paths[i]);
            assert(ownership_of(paths[i], options, found[i]).contains(issue));
        }
        if last.contains(issue) {
            let n = paths.len() - 1;
            assert(ownership_of(paths[n], options, found[n]).contains(issue));
        }
        if exists|i: int|
            0 <= i < paths.len() && (#[trigger] ownership_of(
                paths[i],
                options,
                found[i],
            )).contains(issue) {
            let i = choose|i: int|
                0 <= i < paths.len() && (#[trigger] ownership_of(
                    paths[i],
                    options,
                    found[i],
                )).contains(issue);
            if i < front.len() {
                assert(ownership_of(front[i], options, found[i]).contains(issue));
            }
        }
    } else {
        assert(!owner_issues(paths, options, found).contains(issue));
    }
}

/// Every file that was read is to be judged, and so is the directory of the
/// fragments once one of them was read.
pub proof fn law_all_that_is_read_is_judged(sources: Seq<SourceView>, config_dir: Seq<char>, i: int)
    requires
        0 <= i < sources.len(),
    ensures
        owned_paths(sources, config_dir).contains(sources[i].path),
        !sources[i].main ==> owned_paths(sources, config_dir).contains(config_dir),
{
    let all = owned_paths(sources, config_dir);
    assert(all[i] == sources[i].path);
    if !sources[i].main {
        assert(all.last() == config_dir);
        assert(all[all.len() - 1] == config_dir);
    }
}

proof fn lemma_fragment_sources(fragments: Seq<FragmentView>, source: SourceView)
    ensures
        fragment_sources(fragments).contains(source) <==> exists|i: int|
            #![trigger fragments[i]]
            0 <= i < fragments.len() && fragments[i].outcome == ReadView::Content(source.content)
                && fragments[i].path == source.path && !source.main,
    decreases fragments.len(),
{
    if fragments.len() > 0 {
        let front = fragments.drop_last();
        let last = fragments.last();
        lemma_fragment_sources(front, source);
        assert(fragments[fragments.len() - 1] == last);
        if let ReadView::Content(content) = last.outcome {
            lemma_in_push(
                fragment_sources(front),
                SourceView { path: last.path, content, main: false },
                source,
            );
        }
        assert forall|i: int| 0 <= i < front.len() implies #[trigger] fragments[i] == front[i] by {
        }
        if fragment_sources(front).contains(source) {
            let i = choose|i: int|
                #![trigger front[i]]
                0 <= i < front.len() && front[i].outcome == ReadView::Content(source.content)
                    && front[i].path == source.path && !source.main;
            assert(fragments[i] == front[i]);
        }
        if exists|i: int|
            #![trigger fragments[i]]
            0 <= i < fragments.len() && fragments[i].outcome == ReadView::Content(source.content)
                && fragments[i].path == source.path && !source.main {
            let i = choose|i: int|
                #![trigger fragments[i]]
                0 <= i < fragments.len() && fragments[i].outcome == ReadView::Content(
                    source.content,
                ) && fragments[i].path == source.path && !source.main;
            if i < front.len() {
                assert(front[i] == fragments[i]);
            }
        }
    } else {
        assert(!fragment_sources(fragments).contains(source));
    }
}

/// The files that count are those that could be read: the main file, as such,
/// and each fragment, as no main file.
pub proof fn law_files_that_are_read_count(
    options: OptionsView,
    main: ReadView,
    dir: ListView,
    source: SourceView,
)
    ensures
        gathered(options, main, dir).contains(source) <==> {
            ||| source.main && source.path == options.main_file && main == ReadView::Content(
                source.content,
            )
            ||| !source.main && (dir matches ListView::Fragments(fragments) && exists|i: int|
                #![trigger fragments[i]]
                0 <= i < fragments.len() && fragments[i].outcome == ReadView::Content(
                    source.content,
                ) && fragments[i].path == source.path)
        },
{
    let a: Seq<SourceView> = match main {
        ReadView::Content(content) => seq![
            SourceView { path: options.main_file, content, main: true },
        ],
        _ => Seq::empty(),
    };
    let b: Seq<SourceView> = match dir {
        ListView::Fragments(f) => fragment_sources(f),
        _ => Seq::empty(),
    };
    lemma_in_both(a, b, source);
    if let ListView::Fragments(f) = dir {
        lemma_fragment_sources(f, source);
    }
    if let ReadView::Content(content) = main {
        assert(a[0] == a[0]);
    }
}

/// The main file comes before the fragments, and the fragments keep their
/// order.
pub proof fn law_files_keep_their_order(
    options: OptionsView,
    main: ReadView,
    fragments: Seq<FragmentView>,
    more: FragmentView,
)
    ensures
        main matches ReadView::Content(content) ==> gathered(
            options,
            main,
            ListView::Fragments(fragments),
        )[0] == (SourceView { path: options.main_file, content, main: true }),
        gathered(options, main, ListView::Fragments(fragments.push(more))) == (match more.outcome {
            ReadView::Content(content) => gathered(
                options,
                main,
                ListView::Fragments(fragments),
            ).push(SourceView { path: more.path, content, main: false }),
            _ => gathered(options, main, ListView::Fragments(fragments)),
        }),
{
    assert(fragments.push(more).drop_last() =~= fragments);
}

proof fn lemma_fragment_issues(fragments: Seq<FragmentView>)
    ensures
        fragment_issues(fragments).len() == 0 <==> forall|i: int|
            0 <= i < fragments.len() ==> !((#[trigger] fragments[i]).outcome is Failed),
        forall|i: int|
            0 <= i < fragment_issues(fragments).len() ==> (#[trigger] fragment_issues(
                fragments,
            )[i]).severity == Severity::Error,
    decreases fragments.len(),
{
    if fragments.len() > 0 {
        let front = fragments.drop_last();
        lemma_fragment_issues(front);
        assert(fragments[fragments.len() - 1] == fragments.last());
        assert forall|i: int| 0 <= i < front.len() implies #[trigger] fragments[i] == front[i] by {
        }
        if fragment_issues(front).len() > 0 {
            let i = choose|i: int| 0 <= i < front.len() && (#[trigger] front[i]).outcome is Failed;
            assert(fragments[i].outcome is Failed);
        }
        assert forall|i: int| 0 <= i < fragment_issues(fragments).len() implies (
        #[trigger] fragment_issues(fragments)[i]).severity == Severity::Error by {
            if i < fragment_issues(front).len() {
                assert(fragment_issues(fragments)[i] == fragment_issues(front)[i]);
            }
        }
    }
}

/// Files are objected to exactly if one could not be read, or one that is
/// required is missing, and that is always an error. A fragment that is gone is
/// no objection.
pub proof fn law_required_files_must_be_there(options: OptionsView, main: ReadView, dir: ListView)
    ensures
        ({
            let issues = gather_issues(options, main, dir);
            &&& issues.len() == 0 <==> {
                &&& !(main is Failed)
                &&& main is Missing ==> !options.main_file_required
                &&& !(dir is Failed)
                &&& dir is Missing ==> !options.config_dir_required
                &&& dir matches ListView::Fragments(fragments) ==> forall|i: int|
                    0 <= i < fragments.len() ==> !((#[trigger] fragments[i]).outcome is Failed)
            }
            &&& forall|i: int|
                0 <= i < issues.len() ==> (#[trigger] issues[i]).severity == Severity::Error
        }),
{
    if let ListView::Fragments(fragments) = dir {
        lemma_fragment_issues(fragments);
    }
}

/// Every document that can be parsed counts as what it says, and every other
/// one is an error that names it.
pub proof fn law_documents_count_or_are_reported(documents: Seq<DocumentView>, i: int)
    requires
        0 <= i < documents.len(),
    ensures
        match documents[i].content {
            Ok(raw) => parsed_of(documents).contains(
                ParsedView { path: documents[i].path, raw, main: documents[i].main },
            ),
            Err(e) => unparsed_of(documents).contains(
                IssueView {
                    severity: Severity::Error,
                    file: Some(documents[i].path),
                    group: None,
                    message: "invalid TOML: "@ + e,
                },
            ),
        },
        parsed_of(documents).len() + unparsed_of(documents).len() == documents.len(),
    decreases documents.len(),
{
    let front = documents.drop_last();
    let last = documents.last();
    if front.len() > 0 {
        law_documents_count_or_are_reported(
            front,
            if i < front.len() {
                i
            } else {
                0
            },
        );
    } else {
        assert(parsed_of(front).len() == 0 && unparsed_of(front).len() == 0);
    }
    assert(documents[documents.len() - 1] == last);
    match documents[i].content {
        Ok(raw) => {
            let file = ParsedView { path: documents[i].path, raw, main: documents[i].main };
            if i < front.len() {
                assert(front[i] == documents[i]);
            }
            if let Ok(other) = last.content {
                lemma_in_push(
                    parsed_of(front),
                    ParsedView { path: last.path, raw: other, main: last.main },
                    file,
                );
            }
        },
        Err(e) => {
            let issue = error(documents[i].path, None, "invalid TOML: "@ + e);
            if i < front.len() {
                assert(front[i] == documents[i]);
            }
            if let Err(other) = last.content {
                lemma_in_push(
                    unparsed_of(front),
                    error(last.path, None, "invalid TOML: "@ + other),
                    issue,
                );
            }
        },
    }
}

/// That there is no configuration is told, where that is asked for and nothing
/// else is wrong; all that was wrong before stays.
pub proof fn law_missing_configuration_is_told(issues: Seq<IssueView>, documents: Seq<DocumentView>)
    ensures
        ({
            let all = parse_issues(issues, documents, true);
            let told = IssueView {
                severity: Severity::Warning,
                file: None,
                group: None,
                message: "no configuration files found; no groups are defined"@,
            };
            &&& documents.len() == 0 && !has_error(issues) ==> all == issues.push(told)
            &&& documents.len() == 0 && has_error(issues) ==> all == issues
            &&& parsed_of(documents).len() > 0 ==> all == issues + unparsed_of(documents)
            &&& parse_issues(issues, documents, false) == issues + unparsed_of(documents)
        }),
{
    if documents.len() == 0 {
        assert(issues + unparsed_of(documents) =~= issues);
    }
}

/// Whether a directory is named by a setting of a group or set.
pub open spec fn is_named(
    d: NamedDirView,
    origin: Seq<char>,
    label: Seq<char>,
    field: Seq<char>,
    path: Seq<char>,
) -> bool {
    d.origin == Some(origin) && d.group == Some(label) && d.field == field && d.path == path
}

/// Whether a directory is one of the three of a group.
pub open spec fn is_group_dir(d: NamedDirView, g: GroupView) -> bool {
    ||| is_named(d, g.origin, g.name, "source_root"@, g.source_root)
    ||| is_named(d, g.origin, g.name, "target_root"@, g.target_root)
    ||| is_named(d, g.origin, g.name, "membership"@, g.membership)
}

/// Whether a directory is one of the three of a group set.
pub open spec fn is_set_dir(d: NamedDirView, s: SetView) -> bool {
    ||| is_named(d, s.origin, s.name + "/*"@, "source_root"@, s.source_root)
    ||| is_named(d, s.origin, s.name + "/*"@, "target_root"@, s.target_root)
    ||| is_named(d, s.origin, s.name + "/*"@, "membership_root"@, s.membership_root)
}

proof fn lemma_group_dirs(g: GroupView, d: NamedDirView)
    ensures
        group_dirs(g).contains(d) <==> is_group_dir(d, g),
{
    let all = group_dirs(g);
    assert(all.contains(all[0]) && all.contains(all[1]) && all.contains(all[2]));
    if is_group_dir(d, g) {
        assert(d =~= all[0] || d =~= all[1] || d =~= all[2]);
    }
}

proof fn lemma_set_dirs(s: SetView, d: NamedDirView)
    ensures
        set_dirs(s).contains(d) <==> is_set_dir(d, s),
{
    let all = set_dirs(s);
    assert(all.contains(all[0]) && all.contains(all[1]) && all.contains(all[2]));
    if is_set_dir(d, s) {
        assert(d =~= all[0] || d =~= all[1] || d =~= all[2]);
    }
}

proof fn lemma_groups_dirs(
    groups: Map<Seq<char>, GroupView>,
    names: Seq<Seq<char>>,
    d: NamedDirView,
)
    ensures
        groups_dirs(groups, names).contains(d) <==> exists|i: int|
            #![trigger names[i]]
            0 <= i < names.len() && is_group_dir(d, groups[names[i]]),
    decreases names.len(),
{
    if names.len() > 0 {
        let front = names.drop_last();
        lemma_groups_dirs(groups, front, d);
        lemma_group_dirs(groups[names.last()], d);
        lemma_in_both(groups_dirs(groups, front), group_dirs(groups[names.last()]), d);
        assert(names[names.len() - 1] == names.last());
        assert forall|i: int| 0 <= i < front.len() implies #[trigger] names[i] == front[i] by {
        }
        if groups_dirs(groups, front).contains(d) {
            let i = choose|i: int|
                #![trigger front[i]]
                0 <= i < front.len() && is_group_dir(d, groups[front[i]]);
            assert(names[i] == front[i]);
        }
        if exists|i: int|
            #![trigger names[i]]
            0 <= i < names.len() && is_group_dir(d, groups[names[i]]) {
            let i = choose|i: int|
                #![trigger names[i]]
                0 <= i < names.len() && is_group_dir(d, groups[names[i]]);
            if i < front.len() {
                assert(front[i] == names[i]);
            }
        }
    } else {
        assert(!groups_dirs(groups, names).contains(d));
    }
}

proof fn lemma_sets_dirs(sets: Map<Seq<char>, SetView>, names: Seq<Seq<char>>, d: NamedDirView)
    ensures
        sets_dirs(sets, names).contains(d) <==> exists|i: int|
            #![trigger names[i]]
            0 <= i < names.len() && is_set_dir(d, sets[names[i]]),
    decreases names.len(),
{
    if names.len() > 0 {
        let front = names.drop_last();
        lemma_sets_dirs(sets, front, d);
        lemma_set_dirs(sets[names.last()], d);
        lemma_in_both(sets_dirs(sets, front), set_dirs(sets[names.last()]), d);
        assert(names[names.len() - 1] == names.last());
        assert forall|i: int| 0 <= i < front.len() implies #[trigger] names[i] == front[i] by {
        }
        if sets_dirs(sets, front).contains(d) {
            let i = choose|i: int|
                #![trigger front[i]]
                0 <= i < front.len() && is_set_dir(d, sets[front[i]]);
            assert(names[i] == front[i]);
        }
        if exists|i: int|
            #![trigger names[i]]
            0 <= i < names.len() && is_set_dir(d, sets[names[i]]) {
            let i = choose|i: int|
                #![trigger names[i]]
                0 <= i < names.len() && is_set_dir(d, sets[names[i]]);
            if i < front.len() {
                assert(front[i] == names[i]);
            }
        }
    } else {
        assert(!sets_dirs(sets, names).contains(d));
    }
}

/// A configuration names the state directory, the three directories of each
/// group and the three of each group set, and no other.
pub proof fn law_all_directories_are_named(config: ConfigView, d: NamedDirView)
    requires
        config.groups.dom().finite(),
        config.sets.dom().finite(),
    ensures
        named_dirs(config).contains(d) <==> {
            ||| d.group is None && d.field == "daemon.state_dir"@ && d.path
                == config.daemon.state_dir && (d.origin == if config.files.len() == 0 {
                None
            } else {
                Some(config.files[0])
            })
            ||| exists|name: Seq<char>| #[trigger]
                config.groups.contains_key(name) && is_group_dir(d, config.groups[name])
            ||| exists|name: Seq<char>| #[trigger]
                config.sets.contains_key(name) && is_set_dir(d, config.sets[name])
        },
{
    let first = named_dirs(config)[0];
    let a = seq![first];
    let gn = in_order::<Name>(config.groups.dom());
    let sn = in_order::<Name>(config.sets.dom());
    let b = groups_dirs(config.groups, gn);
    let c = sets_dirs(config.sets, sn);
    assert(named_dirs(config) =~= (a + b) + c);
    lemma_in_both(a + b, c, d);
    lemma_in_both(a, b, d);
    assert(a[0] == first);
    lemma_groups_dirs(config.groups, gn, d);
    lemma_sets_dirs(config.sets, sn, d);
    crate::order::lemma_in_order_finite::<Name>(config.groups.dom());
    crate::order::lemma_in_order_finite::<Name>(config.sets.dom());
    assert forall|name: Seq<char>| gn.contains(name) <==> config.groups.contains_key(name) by {
        assert(gn.to_set().contains(name) <==> gn.contains(name));
    }
    assert forall|name: Seq<char>| sn.contains(name) <==> config.sets.contains_key(name) by {
        assert(sn.to_set().contains(name) <==> sn.contains(name));
    }
    if b.contains(d) {
        let i = choose|i: int|
            #![trigger gn[i]]
            0 <= i < gn.len() && is_group_dir(d, config.groups[gn[i]]);
        assert(gn.contains(gn[i]));
        assert(config.groups.contains_key(gn[i]));
    }
    if c.contains(d) {
        let i = choose|i: int|
            #![trigger sn[i]]
            0 <= i < sn.len() && is_set_dir(d, config.sets[sn[i]]);
        assert(sn.contains(sn[i]));
        assert(config.sets.contains_key(sn[i]));
    }
    if exists|name: Seq<char>| #[trigger]
        config.groups.contains_key(name) && is_group_dir(d, config.groups[name]) {
        let name = choose|name: Seq<char>| #[trigger]
            config.groups.contains_key(name) && is_group_dir(d, config.groups[name]);
        assert(gn.contains(name));
        let i = choose|i: int| 0 <= i < gn.len() && gn[i] == name;
        assert(is_group_dir(d, config.groups[gn[i]]));
    }
    if exists|name: Seq<char>| #[trigger]
        config.sets.contains_key(name) && is_set_dir(d, config.sets[name]) {
        let name = choose|name: Seq<char>| #[trigger]
            config.sets.contains_key(name) && is_set_dir(d, config.sets[name]);
        assert(sn.contains(name));
        let i = choose|i: int| 0 <= i < sn.len() && sn[i] == name;
        assert(is_set_dir(d, config.sets[sn[i]]));
    }
}

/// A directory is objected to exactly if it is none. The objection names the
/// file, the group and the setting, and is an error unless the directory may
/// not be looked at.
pub proof fn law_missing_directories_are_reported(d: NamedDirView, outcome: DirOutcome)
    ensures
        match dir_issue(d, outcome) {
            None => outcome is Directory,
            Some(issue) => {
                &&& !(outcome is Directory)
                &&& issue.file == d.origin
                &&& issue.group == d.group
                &&& issue.severity == Severity::Error <==> !(outcome is Denied)
                &&& issue.severity == Severity::Warning <==> outcome is Denied
                &&& issue.message.take(d.field.len() as int) == d.field
                &&& outcome is Missing ==> issue.message == d.field + ": "@ + d.path
                    + " does not exist"@
                &&& outcome is NotADirectory ==> issue.message == d.field + ": "@ + d.path
                    + " is not a directory"@
            },
        },
{
    if let Some(issue) = dir_issue(d, outcome) {
        assert(issue.message.take(d.field.len() as int) =~= d.field);
    }
}

/// Every directory that was looked for is judged by what came of it.
pub proof fn law_every_directory_is_judged(
    dirs: Seq<NamedDirView>,
    found: Seq<DirOutcome>,
    issue: IssueView,
)
    ensures
        look_issues(dirs, found).contains(issue) <==> exists|i: int|
            0 <= i < dirs.len() && #[trigger] dir_issue(dirs[i], found[i]) == Some(issue),
    decreases dirs.len(),
{
    if dirs.len() > 0 {
        let front = dirs.drop_last();
        law_every_directory_is_judged(front, found, issue);
        let n = dirs.len() - 1;
        assert(dirs[n] == dirs.last());
        if let Some(last) = dir_issue(dirs[n], found[n]) {
            lemma_in_push(look_issues(front, found), last, issue);
        }
        if look_issues(front, found).contains(issue) {
            let i = choose|i: int|
                0 <= i < front.len() && #[trigger] dir_issue(front[i], found[i]) == Some(issue);
            assert(dir_issue(dirs[i], found[i]) == Some(issue));
        }
        if exists|i: int|
            0 <= i < dirs.len() && #[trigger] dir_issue(dirs[i], found[i]) == Some(issue) {
            let i = choose|i: int|
                0 <= i < dirs.len() && #[trigger] dir_issue(dirs[i], found[i]) == Some(issue);
            if i < front.len() {
                assert(dir_issue(front[i], found[i]) == Some(issue));
            }
        }
    } else {
        assert(!look_issues(dirs, found).contains(issue));
    }
}

/// Directories are looked for exactly where that is asked for and nothing is
/// wrong with the configuration, and then all that it names are.
pub proof fn law_directories_are_looked_for_last(
    files: GatheredView,
    options: OptionsView,
    found: Seq<ResolvedView>,
)
    ensures
        ({
            let v = validated_of(files, options, found);
            &&& !options.check_paths ==> v.dirs.len() == 0
            &&& has_error(v.issues) ==> v.dirs.len() == 0
            &&& options.check_paths && !has_error(v.issues) ==> v.dirs == named_dirs(v.config)
        }),
{
}

/// What was wrong before the files were read stays wrong, and what is wrong with
/// the files comes behind it.
pub proof fn law_earlier_issues_stay(
    options: OptionsView,
    main: ReadView,
    dir: ListView,
    before: Seq<IssueView>,
)
    ensures
        ({
            let files = files_of(options, main, dir, before);
            &&& files.sources == gathered(options, main, dir)
            &&& files.issues.take(before.len() as int) == before
            &&& files.issues.skip(before.len() as int) == gather_issues(options, main, dir)
        }),
{
    let files = files_of(options, main, dir, before);
    assert(files.issues.take(before.len() as int) =~= before);
    assert(files.issues.skip(before.len() as int) =~= gather_issues(options, main, dir));
}

/// An issue is told with its file and its group, as far as it has them, before
/// what is wrong.
pub proof fn law_issues_tell_where_they_are(
    severity: Severity,
    file: Seq<char>,
    group: Seq<char>,
    message: Seq<char>,
)
    ensures
        (IssueView { severity, file: None, group: None, message }).text() == message,
        (IssueView { severity, file: Some(file), group: None, message }).text() == file + ": "@
            + message,
        (IssueView { severity, file: None, group: Some(group), message }).text() == "group '"@
            + group + "': "@ + message,
        (IssueView { severity, file: Some(file), group: Some(group), message }).text() == file
            + ": group '"@ + group + "': "@ + message,
{
    reveal_strlit(": ");
    reveal_strlit("group '");
    reveal_strlit(": group '");
    assert((IssueView { severity, file: None, group: None, message }).text() =~= message);
    assert((IssueView { severity, file: Some(file), group: None, message }).text() =~= file + ": "@
        + message);
    assert((IssueView { severity, file: None, group: Some(group), message }).text() =~= "group '"@
        + group + "': "@ + message);
    assert((IssueView { severity, file: Some(file), group: Some(group), message }).text() =~= file
        + ": group '"@ + group + "': "@ + message);
}

} // verus!
