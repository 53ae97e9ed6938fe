//! What a configuration that is not refused puts in force, stated over what
//! its files say.
use vstd::prelude::*;

use crate::config::{assemble_daemon, assemble_files, assemble_group, assemble_groups, cross_all, cross_issues, cross_one, daemon_issues, daemon_settings, group_issues, group_of, has_error, path_field_issues, template_field_issues, valid_user_name, validated, Assembly, GroupView, IssueView, MountAttrs, ParsedView, RawDaemonView, RawGroupView, Severity};
use crate::name::Name;
use crate::order::in_order;
use crate::path::{check_path, components, AbsPathErrorView};
use crate::sets::{all_zone_issues, assemble_set, assemble_set_files, assemble_sets, group_zone, group_zones, level_issues, set_cross_issues, set_issues, set_of, set_path_issues, set_template_issues, set_zone, set_zones, zone_issues, RawSetView, SetAssembly, SetView, Zone};
use crate::template::{parse_template, TemplateErrorView, TemplateView};

verus! {

/// Whether attributes are those that three settings ask for: read-only and
/// `noexec` unless switched off, `nosymfollow` only if switched on.
pub open spec fn are_attrs_of(
    attrs: MountAttrs,
    read_only: Option<bool>,
    noexec: Option<bool>,
    nosymfollow: Option<bool>,
) -> bool {
    &&& attrs.read_only <==> read_only != Some(false)
    &&& attrs.noexec <==> noexec != Some(false)
    &&& attrs.nosymfollow <==> nosymfollow == Some(true)
}

/// Whether a group is what a definition says, setting by setting.
pub open spec fn is_group_of(
    g: GroupView,
    name: Seq<char>,
    raw: RawGroupView,
    path: Seq<char>,
) -> bool {
    &&& g.name == name
    &&& check_path(raw.source_root) == Ok::<Seq<char>, AbsPathErrorView>(g.source_root)
    &&& check_path(raw.target_root) == Ok::<Seq<char>, AbsPathErrorView>(g.target_root)
    &&& check_path(raw.membership) == Ok::<Seq<char>, AbsPathErrorView>(g.membership)
    &&& g.source.raw == raw.source
    &&& g.target.raw == raw.target
    &&& parse_template(raw.source, false) == Ok::<TemplateView, TemplateErrorView>(g.source)
    &&& parse_template(raw.target, false) == Ok::<TemplateView, TemplateErrorView>(g.target)
    &&& are_attrs_of(g.attrs, raw.read_only, raw.noexec, raw.nosymfollow)
    &&& g.origin == path
}

/// Whether a group set is what a definition says, setting by setting.
pub open spec fn is_set_of(
    s: SetView,
    name: Seq<char>,
    raw: RawSetView,
    path: Seq<char>,
) -> bool {
    &&& s.name == name
    &&& check_path(raw.membership_root) == Ok::<Seq<char>, AbsPathErrorView>(s.membership_root)
    &&& check_path(raw.source_root) == Ok::<Seq<char>, AbsPathErrorView>(s.source_root)
    &&& check_path(raw.target_root) == Ok::<Seq<char>, AbsPathErrorView>(s.target_root)
    &&& s.source.raw == raw.source
    &&& s.target.raw == raw.target
    &&& parse_template(raw.source, true) == Ok::<TemplateView, TemplateErrorView>(s.source)
    &&& parse_template(raw.target, true) == Ok::<TemplateView, TemplateErrorView>(s.target)
    &&& are_attrs_of(s.attrs, raw.read_only, raw.noexec, raw.nosymfollow)
    &&& s.origin == path
}

/// Whether the files define finitely many groups and sets.
pub open spec fn finite_files(files: Seq<ParsedView>) -> bool {
    forall|i: int|
        0 <= i < files.len() ==> (#[trigger] files[i]).raw.groups.dom().finite()
            && files[i].raw.sets.dom().finite()
}

// Issues.

proof fn lemma_error_in_sum(a: Seq<IssueView>, b: Seq<IssueView>)
    ensures
        has_error(a + b) <==> has_error(a) || has_error(b),
{
    let all = a + b;
    if has_error(a) {
        let i = choose|i: int| 0 <= i < a.len() && (#[trigger] a[i]).severity == Severity::Error;
        assert(all[i] == a[i]);
    }
    if has_error(b) {
        let i = choose|i: int| 0 <= i < b.len() && (#[trigger] b[i]).severity == Severity::Error;
        assert(all[a.len() + i] == b[i]);
    }
    if has_error(all) {
        let i = choose|i: int| 0 <= i < all.len() && (#[trigger] all[i]).severity == Severity::Error;
        if i < a.len() {
            assert(a[i] == all[i]);
        } else {
            assert(b[i - a.len()] == all[i]);
        }
    }
}

proof fn lemma_error_pushed(a: Seq<IssueView>, last: IssueView)
    ensures
        has_error(a) ==> has_error(a.push(last)),
        last.severity == Severity::Error ==> has_error(a.push(last)),
{
    let all = a.push(last);
    if has_error(a) {
        let i = choose|i: int| 0 <= i < a.len() && (#[trigger] a[i]).severity == Severity::Error;
        assert(all[i] == a[i]);
    }
    assert(all[a.len() as int] == last);
}

proof fn lemma_one_error(s: Seq<IssueView>)
    requires
        s.len() == 1,
        s[0].severity == Severity::Error,
    ensures
        has_error(s),
{
}

proof fn lemma_group_issues(name: Seq<char>, raw: RawGroupView, path: Seq<char>)
    ensures
        has_error(group_issues(name, raw, path)) <==> group_of(name, raw, path) is None,
        group_of(name, raw, path) matches Some(g) ==> is_group_of(g, name, raw, path),
{
    let a = path_field_issues(path, name, "source_root"@, raw.source_root);
    let b = path_field_issues(path, name, "target_root"@, raw.target_root);
    let c = path_field_issues(path, name, "membership"@, raw.membership);
    let d = template_field_issues(path, name, "source"@, raw.source);
    let e = template_field_issues(path, name, "target"@, raw.target);
    lemma_error_in_sum(a, b);
    lemma_error_in_sum(a + b, c);
    lemma_error_in_sum(a + b + c, d);
    lemma_error_in_sum(a + b + c + d, e);
    if check_path(raw.source_root) is Err {
        lemma_one_error(a);
    }
    if check_path(raw.target_root) is Err {
        lemma_one_error(b);
    }
    if check_path(raw.membership) is Err {
        lemma_one_error(c);
    }
    if parse_template(raw.source, false) is Err {
        lemma_one_error(d);
    } else {
        crate::template::lemma_template_components(raw.source, false);
    }
    if parse_template(raw.target, false) is Err {
        lemma_one_error(e);
    } else {
        crate::template::lemma_template_components(raw.target, false);
    }
}

proof fn lemma_set_issues(name: Seq<char>, raw: RawSetView, path: Seq<char>)
    ensures
        has_error(set_issues(name, raw, path)) <==> set_of(name, raw, path) is None,
        set_of(name, raw, path) matches Some(s) ==> is_set_of(s, name, raw, path),
{
    let a = set_path_issues(path, name, "membership_root"@, raw.membership_root);
    let b = set_path_issues(path, name, "source_root"@, raw.source_root);
    let c = set_path_issues(path, name, "target_root"@, raw.target_root);
    let d = set_template_issues(path, name, "source"@, raw.source);
    let e = set_template_issues(path, name, "target"@, raw.target);
    let f = match (parse_template(raw.source, true), parse_template(raw.target, true)) {
        (Ok(source), Ok(target)) => level_issues(path, name, source, target),
        _ => Seq::empty(),
    };
    lemma_error_in_sum(a, b);
    lemma_error_in_sum(a + b, c);
    lemma_error_in_sum(a + b + c, d);
    lemma_error_in_sum(a + b + c + d, e);
    lemma_error_in_sum(a + b + c + d + e, f);
    if check_path(raw.membership_root) is Err {
        lemma_one_error(a);
    }
    if check_path(raw.source_root) is Err {
        lemma_one_error(b);
    }
    if check_path(raw.target_root) is Err {
        lemma_one_error(c);
    }
    if parse_template(raw.source, true) is Err {
        lemma_one_error(d);
    } else {
        crate::template::lemma_template_components(raw.source, true);
    }
    if parse_template(raw.target, true) is Err {
        lemma_one_error(e);
    } else {
        crate::template::lemma_template_components(raw.target, true);
    }
    if f.len() > 0 {
        assert(f[0].severity == Severity::Error);
    }
}

// Groups.

/// Whether a definition is in force, unless something is wrong.
spec fn holds_group(a: Assembly, name: Seq<char>, raw: RawGroupView, path: Seq<char>) -> bool {
    has_error(a.issues) || (a.origins.contains_key(name) && a.config.groups.contains_key(name)
        && is_group_of(a.config.groups[name], name, raw, path))
}

/// Whether a group comes from a definition in the files.
spec fn from_files(files: Seq<ParsedView>, name: Seq<char>, g: GroupView) -> bool {
    exists|i: int|
        0 <= i < files.len() && (#[trigger] files[i]).raw.groups.contains_key(name) && is_group_of(
            g,
            name,
            files[i].raw.groups[name],
            files[i].path,
        )
}

proof fn lemma_assemble_group(
    a: Assembly,
    path: Seq<char>,
    name: Seq<char>,
    raw: RawGroupView,
    other: Seq<char>,
    other_raw: RawGroupView,
    other_path: Seq<char>,
)
    ensures
        holds_group(assemble_group(a, path, name, raw), name, raw, path),
        holds_group(a, other, other_raw, other_path) ==> holds_group(
            assemble_group(a, path, name, raw),
            other,
            other_raw,
            other_path,
        ),
        has_error(a.issues) ==> has_error(assemble_group(a, path, name, raw).issues),
        assemble_group(a, path, name, raw).config.daemon == a.config.daemon,
        forall|n: Seq<char>| #[trigger]
            assemble_group(a, path, name, raw).config.groups.contains_key(n) ==> {
                let g = assemble_group(a, path, name, raw).config.groups[n];
                (a.config.groups.contains_key(n) && a.config.groups[n] == g) || (n == name
                    && is_group_of(g, name, raw, path))
            },
{
    let after = assemble_group(a, path, name, raw);
    lemma_group_issues(name, raw, path);
    lemma_error_in_sum(a.issues, group_issues(name, raw, path));
    if after.issues.len() == a.issues.len() + 1 {
        lemma_error_pushed(a.issues, after.issues.last());
        if crate::name::check_text(name) is Err || a.origins.contains_key(name) {
            assert(after.issues =~= a.issues.push(after.issues.last()));
        }
    }
}

proof fn lemma_assemble_groups(
    a: Assembly,
    path: Seq<char>,
    groups: Map<Seq<char>, RawGroupView>,
    names: Seq<Seq<char>>,
    other: Seq<char>,
    other_raw: RawGroupView,
    other_path: Seq<char>,
)
    ensures
        forall|k: int|
            0 <= k < names.len() ==> holds_group(
                assemble_groups(a, path, groups, names),
                #[trigger] names[k],
                groups[names[k]],
                path,
            ),
        holds_group(a, other, other_raw, other_path) ==> holds_group(
            assemble_groups(a, path, groups, names),
            other,
            other_raw,
            other_path,
        ),
        has_error(a.issues) ==> has_error(assemble_groups(a, path, groups, names).issues),
        assemble_groups(a, path, groups, names).config.daemon == a.config.daemon,
        forall|n: Seq<char>| #[trigger]
            assemble_groups(a, path, groups, names).config.groups.contains_key(n) ==> {
                let g = assemble_groups(a, path, groups, names).config.groups[n];
                (a.config.groups.contains_key(n) && a.config.groups[n] == g) || (names.contains(n)
                    && is_group_of(g, n, groups[n], path))
            },
    decreases names.len(),
{
    if names.len() > 0 {
        let front = names.drop_last();
        let last = names.last();
        let before = assemble_groups(a, path, groups, front);
        let after = assemble_groups(a, path, groups, names);
        lemma_assemble_groups(a, path, groups, front, other, other_raw, other_path);
        lemma_assemble_group(before, path, last, groups[last], other, other_raw, other_path);
        assert forall|k: int| 0 <= k < names.len() implies holds_group(
            after,
            #[trigger] names[k],
            groups[names[k]],
            path,
        ) by {
            if k < front.len() {
                assert(front[k] == names[k]);
                lemma_assemble_group(
                    before,
                    path,
                    last,
                    groups[last],
                    names[k],
                    groups[names[k]],
                    path,
                );
            }
        }
        assert forall|n: Seq<char>| #[trigger] after.config.groups.contains_key(n) implies {
            let g = after.config.groups[n];
            (a.config.groups.contains_key(n) && a.config.groups[n] == g) || (names.contains(n)
                && is_group_of(g, n, groups[n], path))
        } by {
            assert(names[names.len() - 1] == last);
            if front.contains(n) {
                let k = choose|k: int| 0 <= k < front.len() && front[k] == n;
                assert(names[k] == n);
            }
            if before.config.groups.contains_key(n) {
            }
        }
    }
}

proof fn lemma_assemble_daemon(a: Assembly, file: ParsedView)
    ensures
        assemble_daemon(a, file).config.groups == a.config.groups,
        assemble_daemon(a, file).origins == a.origins,
        has_error(a.issues) ==> has_error(assemble_daemon(a, file).issues),
        !file.main && file.raw.daemon is Some ==> has_error(assemble_daemon(a, file).issues),
{
    let after = assemble_daemon(a, file);
    if file.raw.daemon is Some {
        if file.main {
            lemma_error_in_sum(a.issues, daemon_issues(file.raw.daemon->0, file.path));
        } else {
            lemma_error_pushed(a.issues, after.issues.last());
            assert(after.issues =~= a.issues.push(after.issues.last()));
        }
    }
}

proof fn lemma_group_in_force(files: Seq<ParsedView>, issues: Seq<IssueView>, i: int, name: Seq<char>)
    requires
        finite_files(files),
        0 <= i < files.len(),
        files[i].raw.groups.contains_key(name),
    ensures
        holds_group(
            assemble_files(files, issues),
            name,
            files[i].raw.groups[name],
            files[i].path,
        ),
    decreases files.len(),
{
    let front = files.drop_last();
    let file = files.last();
    let before = assemble_files(front, issues);
    let noted = assemble_daemon(before, file);
    let names = in_order::<String>(file.raw.groups.dom());
    let raw = files[i].raw.groups[name];
    lemma_assemble_daemon(before, file);
    lemma_assemble_groups(noted, file.path, file.raw.groups, names, name, raw, files[i].path);
    if i < files.len() - 1 {
        assert(front[i] == files[i]);
        assert forall|k: int| 0 <= k < front.len() implies (
        #[trigger] front[k]).raw.groups.dom().finite() && front[k].raw.sets.dom().finite() by {
            assert(front[k] == files[k]);
        }
        lemma_group_in_force(front, issues, i, name);
    } else {
        assert(file == files[i]);
        crate::order::lemma_in_order_finite::<String>(file.raw.groups.dom());
        assert(names.to_set().contains(name));
        let k = choose|k: int| 0 <= k < names.len() && names[k] == name;
        assert(holds_group(
            assemble_groups(noted, file.path, file.raw.groups, names),
            names[k],
            file.raw.groups[names[k]],
            file.path,
        ));
    }
}

/// In a configuration without errors, every group that a file defines is in
/// force just as it is defined there: with its own roots, templates,
/// membership directory and attributes.
pub proof fn law_defined_groups_are_in_force(
    files: Seq<ParsedView>,
    issues: Seq<IssueView>,
    i: int,
    name: Seq<char>,
)
    requires
        finite_files(files),
        0 <= i < files.len(),
        files[i].raw.groups.contains_key(name),
    ensures
        !has_error(validated(files, issues).1) ==> validated(files, issues).0.groups.contains_key(
            name,
        ) && is_group_of(
            validated(files, issues).0.groups[name],
            name,
            files[i].raw.groups[name],
            files[i].path,
        ),
{
    lemma_group_in_force(files, issues, i, name);
    lemma_errors_are_kept(files, issues);
}

proof fn lemma_errors_are_kept(files: Seq<ParsedView>, issues: Seq<IssueView>)
    ensures
        has_error(assemble_files(files, issues).issues) ==> has_error(validated(files, issues).1),
        has_error(assemble_set_files(files).issues) ==> has_error(validated(files, issues).1),
        has_error(cross_issues(assemble_files(files, issues).config.groups)) ==> has_error(
            validated(files, issues).1,
        ),
        has_error(
            set_cross_issues(
                assemble_files(files, issues).config.groups,
                assemble_set_files(files).sets,
            ),
        ) ==> has_error(validated(files, issues).1),
{
    let a = assemble_files(files, issues);
    let s = assemble_set_files(files);
    let c = cross_issues(a.config.groups);
    let d = set_cross_issues(a.config.groups, s.sets);
    lemma_error_in_sum(a.issues, s.issues);
    lemma_error_in_sum(a.issues + s.issues, c);
    lemma_error_in_sum(a.issues + s.issues + c, d);
}

/// Every group in force is defined in a file, just as it is.
pub proof fn law_groups_in_force_are_defined(
    files: Seq<ParsedView>,
    issues: Seq<IssueView>,
    name: Seq<char>,
)
    requires
        finite_files(files),
    ensures
        validated(files, issues).0.groups.contains_key(name) ==> exists|i: int|
            0 <= i < files.len() && (#[trigger] files[i]).raw.groups.contains_key(name)
                && is_group_of(
                validated(files, issues).0.groups[name],
                name,
                files[i].raw.groups[name],
                files[i].path,
            ),
{
    if validated(files, issues).0.groups.contains_key(name) {
        lemma_from_files(files, issues, name);
    }
}

proof fn lemma_from_files(files: Seq<ParsedView>, issues: Seq<IssueView>, name: Seq<char>)
    requires
        finite_files(files),
        assemble_files(files, issues).config.groups.contains_key(name),
    ensures
        from_files(files, name, assemble_files(files, issues).config.groups[name]),
    decreases files.len(),
{
    if files.len() > 0 {
        let front = files.drop_last();
        let file = files.last();
        let before = assemble_files(front, issues);
        let noted = assemble_daemon(before, file);
        let names = in_order::<String>(file.raw.groups.dom());
        let g = assemble_files(files, issues).config.groups[name];
        lemma_assemble_daemon(before, file);
        lemma_assemble_groups(
            noted,
            file.path,
            file.raw.groups,
            names,
            name,
            file.raw.groups[name],
            file.path,
        );
        assert(files[files.len() - 1] == file);
        if before.config.groups.contains_key(name) && before.config.groups[name] == g {
            assert forall|k: int| 0 <= k < front.len() implies (
            #[trigger] front[k]).raw.groups.dom().finite() && front[k].raw.sets.dom().finite() by {
                assert(front[k] == files[k]);
            }
            lemma_from_files(front, issues, name);
            let i = choose|i: int|
                0 <= i < front.len() && (#[trigger] front[i]).raw.groups.contains_key(name)
                    && is_group_of(g, name, front[i].raw.groups[name], front[i].path);
            assert(files[i] == front[i]);
        } else {
            crate::order::lemma_in_order_finite::<String>(file.raw.groups.dom());
            assert(names.to_set().contains(name));
            assert(files[files.len() - 1].raw.groups.contains_key(name));
        }
    }
}

// Group sets.

spec fn holds_set(a: SetAssembly, name: Seq<char>, raw: RawSetView, path: Seq<char>) -> bool {
    has_error(a.issues) || (a.origins.contains_key(name) && a.sets.contains_key(name) && is_set_of(
        a.sets[name],
        name,
        raw,
        path,
    ))
}

proof fn lemma_assemble_set(
    a: SetAssembly,
    path: Seq<char>,
    name: Seq<char>,
    raw: RawSetView,
    other: Seq<char>,
    other_raw: RawSetView,
    other_path: Seq<char>,
)
    ensures
        holds_set(assemble_set(a, path, name, raw), name, raw, path),
        holds_set(a, other, other_raw, other_path) ==> holds_set(
            assemble_set(a, path, name, raw),
            other,
            other_raw,
            other_path,
        ),
{
    let after = assemble_set(a, path, name, raw);
    lemma_set_issues(name, raw, path);
    lemma_error_in_sum(a.issues, set_issues(name, raw, path));
    if crate::name::check_text(name) is Err || a.origins.contains_key(name) {
        lemma_error_pushed(a.issues, after.issues.last());
        assert(after.issues =~= a.issues.push(after.issues.last()));
    }
}

proof fn lemma_assemble_sets(
    a: SetAssembly,
    path: Seq<char>,
    sets: Map<Seq<char>, RawSetView>,
    names: Seq<Seq<char>>,
    other: Seq<char>,
    other_raw: RawSetView,
    other_path: Seq<char>,
)
    ensures
        forall|k: int|
            0 <= k < names.len() ==> holds_set(
                assemble_sets(a, path, sets, names),
                #[trigger] names[k],
                sets[names[k]],
                path,
            ),
        holds_set(a, other, other_raw, other_path) ==> holds_set(
            assemble_sets(a, path, sets, names),
            other,
            other_raw,
            other_path,
        ),
    decreases names.len(),
{
    if names.len() > 0 {
        let front = names.drop_last();
        let last = names.last();
        let before = assemble_sets(a, path, sets, front);
        let after = assemble_sets(a, path, sets, names);
        lemma_assemble_sets(a, path, sets, front, other, other_raw, other_path);
        lemma_assemble_set(before, path, last, sets[last], other, other_raw, other_path);
        assert forall|k: int| 0 <= k < names.len() implies holds_set(
            after,
            #[trigger] names[k],
            sets[names[k]],
            path,
        ) by {
            if k < front.len() {
                assert(front[k] == names[k]);
                lemma_assemble_set(before, path, last, sets[last], names[k], sets[names[k]], path);
            }
        }
    }
}

proof fn lemma_set_in_force(files: Seq<ParsedView>, i: int, name: Seq<char>)
    requires
        finite_files(files),
        0 <= i < files.len(),
        files[i].raw.sets.contains_key(name),
    ensures
        holds_set(assemble_set_files(files), name, files[i].raw.sets[name], files[i].path),
    decreases files.len(),
{
    let front = files.drop_last();
    let file = files.last();
    let before = assemble_set_files(front);
    let names = in_order::<String>(file.raw.sets.dom());
    lemma_assemble_sets(
        before,
        file.path,
        file.raw.sets,
        names,
        name,
        files[i].raw.sets[name],
        files[i].path,
    );
    if i < files.len() - 1 {
        assert(front[i] == files[i]);
        assert forall|k: int| 0 <= k < front.len() implies (
        #[trigger] front[k]).raw.groups.dom().finite() && front[k].raw.sets.dom().finite() by {
            assert(front[k] == files[k]);
        }
        lemma_set_in_force(front, i, name);
    } else {
        assert(file == files[i]);
        crate::order::lemma_in_order_finite::<String>(file.raw.sets.dom());
        assert(names.to_set().contains(name));
        let k = choose|k: int| 0 <= k < names.len() && names[k] == name;
        assert(holds_set(
            assemble_sets(before, file.path, file.raw.sets, names),
            names[k],
            file.raw.sets[names[k]],
            file.path,
        ));
    }
}

/// In a configuration without errors, every group set that a file defines is
/// in force just as it is defined there.
pub proof fn law_defined_sets_are_in_force(
    files: Seq<ParsedView>,
    issues: Seq<IssueView>,
    i: int,
    name: Seq<char>,
)
    requires
        finite_files(files),
        0 <= i < files.len(),
        files[i].raw.sets.contains_key(name),
    ensures
        !has_error(validated(files, issues).1) ==> validated(files, issues).0.sets.contains_key(
            name,
        ) && is_set_of(
            validated(files, issues).0.sets[name],
            name,
            files[i].raw.sets[name],
            files[i].path,
        ),
{
    lemma_set_in_force(files, i, name);
    lemma_errors_are_kept(files, issues);
}

/// A name is defined at most once: two files that define one group, or one
/// group set, are refused.
pub proof fn law_names_are_defined_once(
    files: Seq<ParsedView>,
    issues: Seq<IssueView>,
    i: int,
    j: int,
    name: Seq<char>,
)
    requires
        finite_files(files),
        0 <= i < j < files.len(),
        files[i].path != files[j].path,
        (files[i].raw.groups.contains_key(name) && files[j].raw.groups.contains_key(name)) || (
        files[i].raw.sets.contains_key(name) && files[j].raw.sets.contains_key(name)),
    ensures
        has_error(validated(files, issues).1),
{
    if !has_error(validated(files, issues).1) {
        if files[i].raw.groups.contains_key(name) && files[j].raw.groups.contains_key(name) {
            law_defined_groups_are_in_force(files, issues, i, name);
            law_defined_groups_are_in_force(files, issues, j, name);
        } else {
            law_defined_sets_are_in_force(files, issues, i, name);
            law_defined_sets_are_in_force(files, issues, j, name);
        }
    }
}

// Daemon settings.

/// Each daemon setting is the one that is written, or its default: no user,
/// `/var/lib/byssus`, and sixty seconds; an interval of zero switches the
/// periodic pass off. A setting that is no user name, no clean absolute path,
/// or more than a day is an error.
pub proof fn law_daemon_settings_are_as_written(raw: RawDaemonView, path: Seq<char>)
    ensures
        ({
            let d = daemon_settings(raw);
            &&& raw.user is None ==> d.user is None
            &&& raw.user matches Some(user) ==> valid_user_name(user) ==> d.user == Some(user)
            &&& raw.state_dir is None ==> d.state_dir == "/var/lib/byssus"@
            &&& raw.state_dir matches Some(dir) ==> check_path(dir) matches Ok(p) ==> d.state_dir
                == p
            &&& raw.resync_interval_secs is None ==> d.resync_interval == Some(60u64)
            &&& raw.resync_interval_secs == Some(0u64) ==> d.resync_interval is None
            &&& raw.resync_interval_secs matches Some(secs) ==> 1 <= secs <= 86_400
                ==> d.resync_interval == Some(secs)
            &&& has_error(daemon_issues(raw, path)) <==> {
                ||| raw.user matches Some(user) && !valid_user_name(user)
                ||| raw.state_dir matches Some(dir) && check_path(dir) is Err
                ||| raw.resync_interval_secs matches Some(secs) && secs > 86_400
            }
        }),
{
    let all = daemon_issues(raw, path);
    if all.len() > 0 {
        assert(all[0].severity == Severity::Error);
    }
}

proof fn lemma_daemon_kept(a: Assembly, file: ParsedView, names: Seq<Seq<char>>)
    ensures
        assemble_groups(a, file.path, file.raw.groups, names).config.daemon == a.config.daemon,
        has_error(a.issues) ==> has_error(
            assemble_groups(a, file.path, file.raw.groups, names).issues,
        ),
{
    lemma_assemble_groups(
        a,
        file.path,
        file.raw.groups,
        names,
        Seq::empty(),
        arbitrary(),
        Seq::empty(),
    );
}

/// The daemon settings in force are those of the main file; a daemon section
/// in any other file is an error.
pub proof fn law_the_main_file_sets_the_daemon(files: Seq<ParsedView>, issues: Seq<IssueView>, i: int)
    requires
        0 <= i < files.len(),
        files[i].raw.daemon is Some,
    ensures
        files[i].main && (forall|j: int|
            0 <= j < files.len() && j != i ==> !(#[trigger] files[j]).main) ==> validated(
            files,
            issues,
        ).0.daemon == daemon_settings(files[i].raw.daemon->0),
        !files[i].main ==> has_error(validated(files, issues).1),
{
    lemma_main_daemon(files, issues, i);
    lemma_errors_are_kept(files, issues);
}

proof fn lemma_main_daemon(files: Seq<ParsedView>, issues: Seq<IssueView>, i: int)
    requires
        0 <= i < files.len(),
        files[i].raw.daemon is Some,
    ensures
        files[i].main && (forall|j: int|
            0 <= j < files.len() && j != i ==> !(#[trigger] files[j]).main) ==> assemble_files(
            files,
            issues,
        ).config.daemon == daemon_settings(files[i].raw.daemon->0),
        !files[i].main ==> has_error(assemble_files(files, issues).issues),
    decreases files.len(),
{
    let front = files.drop_last();
    let file = files.last();
    let before = assemble_files(front, issues);
    let names = in_order::<String>(file.raw.groups.dom());
    lemma_assemble_daemon(before, file);
    lemma_daemon_kept(assemble_daemon(before, file), file, names);
    if i < files.len() - 1 {
        assert(front[i] == files[i]);
        lemma_main_daemon(front, issues, i);
        if forall|j: int| 0 <= j < files.len() && j != i ==> !(#[trigger] files[j]).main {
            assert forall|j: int| 0 <= j < front.len() && j != i implies !(
            #[trigger] front[j]).main by {
                assert(front[j] == files[j]);
            }
            assert(!files[files.len() - 1].main);
        }
    }
}

/// Where no file has a daemon section, the defaults are in force.
pub proof fn law_unset_daemons_have_defaults(files: Seq<ParsedView>, issues: Seq<IssueView>)
    requires
        forall|i: int| 0 <= i < files.len() ==> (#[trigger] files[i]).raw.daemon is None,
    ensures
        validated(files, issues).0.daemon.user is None,
        validated(files, issues).0.daemon.state_dir == "/var/lib/byssus"@,
        validated(files, issues).0.daemon.resync_interval == Some(60u64),
    decreases files.len(),
{
    if files.len() > 0 {
        let front = files.drop_last();
        let file = files.last();
        assert forall|i: int| 0 <= i < front.len() implies (#[trigger] front[i]).raw.daemon is None by {
            assert(front[i] == files[i]);
        }
        law_unset_daemons_have_defaults(front, issues);
        assert(files[files.len() - 1] == file);
        let before = assemble_files(front, issues);
        lemma_daemon_kept(
            assemble_daemon(before, file),
            file,
            in_order::<String>(file.raw.groups.dom()),
        );
    }
}

// Memberships and views are apart.

proof fn lemma_cross_one(
    groups: Map<Seq<char>, GroupView>,
    name: Seq<char>,
    others: Seq<Seq<char>>,
)
    ensures
        has_error(cross_one(groups, name, others)) <==> exists|k: int|
            0 <= k < others.len() && components(
                groups[#[trigger] others[k]].target_root,
            ).is_prefix_of(components(groups[name].membership)),
    decreases others.len(),
{
    if others.len() > 0 {
        let front = others.drop_last();
        lemma_cross_one(groups, name, front);
        let before = cross_one(groups, name, front);
        let all = cross_one(groups, name, others);
        assert(others[others.len() - 1] == others.last());
        if all.len() > before.len() {
            lemma_error_pushed(before, all.last());
            assert(all =~= before.push(all.last()));
        }
        if has_error(before) {
            let k = choose|k: int|
                0 <= k < front.len() && components(
                    groups[#[trigger] front[k]].target_root,
                ).is_prefix_of(components(groups[name].membership));
            assert(others[k] == front[k]);
        }
        if exists|k: int|
            0 <= k < others.len() && components(
                groups[#[trigger] others[k]].target_root,
            ).is_prefix_of(components(groups[name].membership)) {
            let k = choose|k: int|
                0 <= k < others.len() && components(
                    groups[#[trigger] others[k]].target_root,
                ).is_prefix_of(components(groups[name].membership));
            if k < front.len() {
                assert(front[k] == others[k]);
            }
        }
    }
}

proof fn lemma_cross_all(
    groups: Map<Seq<char>, GroupView>,
    names: Seq<Seq<char>>,
    all: Seq<Seq<char>>,
)
    ensures
        has_error(cross_all(groups, names, all)) <==> exists|i: int, k: int|
            0 <= i < names.len() && 0 <= k < all.len() && components(
                groups[#[trigger] all[k]].target_root,
            ).is_prefix_of(components(groups[#[trigger] names[i]].membership)),
    decreases names.len(),
{
    if names.len() > 0 {
        let front = names.drop_last();
        let last = names.last();
        lemma_cross_all(groups, front, all);
        lemma_cross_one(groups, last, all);
        lemma_error_in_sum(cross_all(groups, front, all), cross_one(groups, last, all));
        assert(names[names.len() - 1] == last);
        if has_error(cross_all(groups, front, all)) {
            let (i, k) = choose|i: int, k: int|
                0 <= i < front.len() && 0 <= k < all.len() && components(
                    groups[#[trigger] all[k]].target_root,
                ).is_prefix_of(components(groups[#[trigger] front[i]].membership));
            assert(names[i] == front[i]);
        }
        if exists|i: int, k: int|
            0 <= i < names.len() && 0 <= k < all.len() && components(
                groups[#[trigger] all[k]].target_root,
            ).is_prefix_of(components(groups[#[trigger] names[i]].membership)) {
            let (i, k) = choose|i: int, k: int|
                0 <= i < names.len() && 0 <= k < all.len() && components(
                    groups[#[trigger] all[k]].target_root,
                ).is_prefix_of(components(groups[#[trigger] names[i]].membership));
            if i < front.len() {
                assert(front[i] == names[i]);
            }
        }
    }
}

/// Two groups get in each other's way exactly if the membership directory of
/// one is at or beneath the target root of the other; a group may get in its
/// own way. Nothing else between groups is refused.
pub proof fn law_groups_are_refused_for_memberships_in_views(groups: Map<Seq<char>, GroupView>)
    requires
        groups.dom().finite(),
    ensures
        has_error(cross_issues(groups)) <==> exists|a: Seq<char>, b: Seq<char>|
            #[trigger] groups.contains_key(a) && #[trigger] groups.contains_key(b) && components(
                groups[b].target_root,
            ).is_prefix_of(components(groups[a].membership)),
{
    let names = in_order::<Name>(groups.dom());
    crate::order::lemma_in_order_finite::<Name>(groups.dom());
    lemma_cross_all(groups, names, names);
    if exists|a: Seq<char>, b: Seq<char>|
        #[trigger] groups.contains_key(a) && #[trigger] groups.contains_key(b) && components(
            groups[b].target_root,
        ).is_prefix_of(components(groups[a].membership)) {
        let (a, b) = choose|a: Seq<char>, b: Seq<char>|
            #[trigger] groups.contains_key(a) && #[trigger] groups.contains_key(b) && components(
                groups[b].target_root,
            ).is_prefix_of(components(groups[a].membership));
        assert(names.to_set().contains(a) && names.to_set().contains(b));
        let i = choose|i: int| 0 <= i < names.len() && names[i] == a;
        let k = choose|k: int| 0 <= k < names.len() && names[k] == b;
        assert(components(groups[names[k]].target_root).is_prefix_of(
            components(groups[names[i]].membership),
        ));
    }
    if has_error(cross_issues(groups)) {
        let (i, k) = choose|i: int, k: int|
            0 <= i < names.len() && 0 <= k < names.len() && components(
                groups[#[trigger] names[k]].target_root,
            ).is_prefix_of(components(groups[#[trigger] names[i]].membership));
        assert(names.to_set().contains(names[i]) && names.to_set().contains(names[k]));
        assert(groups.contains_key(names[i]) && groups.contains_key(names[k]));
    }
}

proof fn lemma_zone_issues(a: Zone, others: Seq<Zone>)
    ensures
        has_error(zone_issues(a, others)) <==> exists|k: int|
            0 <= k < others.len() && components((#[trigger] others[k]).target_root).is_prefix_of(
                components(a.membership),
            ),
    decreases others.len(),
{
    if others.len() > 0 {
        let front = others.drop_last();
        lemma_zone_issues(a, front);
        let before = zone_issues(a, front);
        let all = zone_issues(a, others);
        assert(others[others.len() - 1] == others.last());
        if all.len() > before.len() {
            lemma_error_pushed(before, all.last());
            assert(all =~= before.push(all.last()));
        }
        if has_error(before) {
            let k = choose|k: int|
                0 <= k < front.len() && components(
                    (#[trigger] front[k]).target_root,
                ).is_prefix_of(components(a.membership));
            assert(others[k] == front[k]);
        }
        if exists|k: int|
            0 <= k < others.len() && components((#[trigger] others[k]).target_root).is_prefix_of(
                components(a.membership),
            ) {
            let k = choose|k: int|
                0 <= k < others.len() && components(
                    (#[trigger] others[k]).target_root,
                ).is_prefix_of(components(a.membership));
            if k < front.len() {
                assert(front[k] == others[k]);
            }
        }
    }
}

proof fn lemma_all_zone_issues(zones: Seq<Zone>, others: Seq<Zone>, i: int, k: int)
    requires
        0 <= i < zones.len(),
        0 <= k < others.len(),
        components(others[k].target_root).is_prefix_of(components(zones[i].membership)),
    ensures
        has_error(all_zone_issues(zones, others)),
    decreases zones.len(),
{
    let front = zones.drop_last();
    lemma_error_in_sum(all_zone_issues(front, others), zone_issues(zones.last(), others));
    if i < front.len() {
        assert(front[i] == zones[i]);
        lemma_all_zone_issues(front, others, i, k);
    } else {
        lemma_zone_issues(zones.last(), others);
    }
}

/// In a configuration without errors no membership directory of a group, and
/// no membership root of a set, is at or beneath the target root of any group
/// or set: whoever can write a view cannot change a membership.
pub proof fn law_memberships_are_outside_all_views(
    files: Seq<ParsedView>,
    issues: Seq<IssueView>,
    a: Seq<char>,
    b: Seq<char>,
)
    ensures
        ({
            let groups = validated(files, issues).0.groups;
            let sets = validated(files, issues).0.sets;
            groups.dom().finite() && sets.dom().finite() && !has_error(
                validated(files, issues).1,
            ) ==> {
                &&& groups.contains_key(a) && groups.contains_key(b) ==> !components(
                    groups[b].target_root,
                ).is_prefix_of(components(groups[a].membership))
                &&& groups.contains_key(a) && sets.contains_key(b) ==> !components(
                    sets[b].target_root,
                ).is_prefix_of(components(groups[a].membership))
                &&& sets.contains_key(a) && groups.contains_key(b) ==> !components(
                    groups[b].target_root,
                ).is_prefix_of(components(sets[a].membership_root))
                &&& sets.contains_key(a) && sets.contains_key(b) ==> !components(
                    sets[b].target_root,
                ).is_prefix_of(components(sets[a].membership_root))
            }
        }),
{
    let groups = validated(files, issues).0.groups;
    let sets = validated(files, issues).0.sets;
    if groups.dom().finite() && sets.dom().finite() && !has_error(validated(files, issues).1) {
        lemma_outside_all_views(files, issues, a, b);
    }
}

proof fn lemma_outside_all_views(
    files: Seq<ParsedView>,
    issues: Seq<IssueView>,
    a: Seq<char>,
    b: Seq<char>,
)
    requires
        validated(files, issues).0.groups.dom().finite(),
        validated(files, issues).0.sets.dom().finite(),
        !has_error(validated(files, issues).1),
    ensures
        ({
            let groups = validated(files, issues).0.groups;
            let sets = validated(files, issues).0.sets;
            &&& groups.contains_key(a) && groups.contains_key(b) ==> !components(
                groups[b].target_root,
            ).is_prefix_of(components(groups[a].membership))
            &&& groups.contains_key(a) && sets.contains_key(b) ==> !components(
                sets[b].target_root,
            ).is_prefix_of(components(groups[a].membership))
            &&& sets.contains_key(a) && groups.contains_key(b) ==> !components(
                groups[b].target_root,
            ).is_prefix_of(components(sets[a].membership_root))
            &&& sets.contains_key(a) && sets.contains_key(b) ==> !components(
                sets[b].target_root,
            ).is_prefix_of(components(sets[a].membership_root))
        }),
{
    let groups = validated(files, issues).0.groups;
    let sets = validated(files, issues).0.sets;
    lemma_errors_are_kept(files, issues);
    law_groups_are_refused_for_memberships_in_views(groups);
    let gnames = in_order::<Name>(groups.dom());
    let snames = in_order::<Name>(sets.dom());
    crate::order::lemma_in_order_finite::<Name>(groups.dom());
    crate::order::lemma_in_order_finite::<Name>(sets.dom());
    let gz = group_zones(groups);
    let sz = set_zones(sets);
    lemma_error_in_sum(all_zone_issues(sz, gz + sz), all_zone_issues(gz, sz));
    if groups.contains_key(a) && sets.contains_key(b) && components(
        sets[b].target_root,
    ).is_prefix_of(components(groups[a].membership)) {
        assert(gnames.to_set().contains(a) && snames.to_set().contains(b));
        let i = choose|i: int| 0 <= i < gnames.len() && gnames[i] == a;
        let k = choose|k: int| 0 <= k < snames.len() && snames[k] == b;
        assert(gz[i] == group_zone(groups[a]));
        assert(sz[k] == set_zone(sets[b]));
        lemma_all_zone_issues(gz, sz, i, k);
    }
    if sets.contains_key(a) {
        assert(snames.to_set().contains(a));
        let i = choose|i: int| 0 <= i < snames.len() && snames[i] == a;
        assert(sz[i] == set_zone(sets[a]));
        if groups.contains_key(b) && components(groups[b].target_root).is_prefix_of(
            components(sets[a].membership_root),
        ) {
            assert(gnames.to_set().contains(b));
            let k = choose|k: int| 0 <= k < gnames.len() && gnames[k] == b;
            assert((gz + sz)[k] == group_zone(groups[b]));
            lemma_all_zone_issues(sz, gz + sz, i, k);
        }
        if sets.contains_key(b) && components(sets[b].target_root).is_prefix_of(
            components(sets[a].membership_root),
        ) {
            assert(snames.to_set().contains(b));
            let k = choose|k: int| 0 <= k < snames.len() && snames[k] == b;
            assert((gz + sz)[gz.len() + k] == set_zone(sets[b]));
            lemma_all_zone_issues(sz, gz + sz, i, gz.len() + k);
        }
    }
}

} // verus!
