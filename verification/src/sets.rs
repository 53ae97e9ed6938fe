//! Group sets: groups that are discovered as directories.
//!
//! A set fixes roots, templates and attributes once. Each directory beneath its
//! membership root (one or two levels deep) is a group, and the names of the
//! directories fill the placeholders `{group}` and `{subgroup}`.
use vstd::prelude::*;
use vstd::string::*;

use crate::config::{error, field_message, issue_views, or_default, push_error, setting, two, AbsPath, Config, GroupView, Issue, IssueView, MountAttrs, ParsedFile, ParsedView, parsed_views};
use crate::name::{check_text, Name};
use crate::order::{in_order, Table};
use crate::path::{check_path, components, AbsPathErrorView};
use crate::reconcile::{set_label, set_text};
use crate::template::{has_piece, level_text, parse_template, PieceView, Template, TemplateError, TemplateErrorView, TemplateView};

verus! {

/// A group set definition as written.
#[derive(Debug, PartialEq, Eq)]
pub struct RawSet {
    /// `membership_root`.
    pub membership_root: String,
    /// `source_root`.
    pub source_root: String,
    /// `source`.
    pub source: String,
    /// `target_root`.
    pub target_root: String,
    /// `target`.
    pub target: String,
    /// `read_only`.
    pub read_only: Option<bool>,
    /// `noexec`.
    pub noexec: Option<bool>,
    /// `nosymfollow`.
    pub nosymfollow: Option<bool>,
}

/// What a group set definition says as written.
#[verifier::ext_equal]
pub struct RawSetView {
    /// `membership_root`.
    pub membership_root: Seq<char>,
    /// `source_root`.
    pub source_root: Seq<char>,
    /// `source`.
    pub source: Seq<char>,
    /// `target_root`.
    pub target_root: Seq<char>,
    /// `target`.
    pub target: Seq<char>,
    /// `read_only`.
    pub read_only: Option<bool>,
    /// `noexec`.
    pub noexec: Option<bool>,
    /// `nosymfollow`.
    pub nosymfollow: Option<bool>,
}

impl View for RawSet {
    type V = RawSetView;

    open spec fn view(&self) -> RawSetView {
        RawSetView {
            membership_root: self.membership_root@,
            source_root: self.source_root@,
            source: self.source@,
            target_root: self.target_root@,
            target: self.target@,
            read_only: self.read_only,
            noexec: self.noexec,
            nosymfollow: self.nosymfollow,
        }
    }
}

/// A validated group set definition.
#[derive(Debug, PartialEq, Eq)]
pub struct GroupSetConfig {
    /// Set name.
    pub name: Name,
    /// Directory beneath which the groups' membership directories are.
    pub membership_root: AbsPath,
    /// Trusted root beneath which sources are resolved.
    pub source_root: AbsPath,
    /// Source template relative to `source_root`.
    pub source: Template,
    /// Trusted root beneath which views are mounted.
    pub target_root: AbsPath,
    /// Target template relative to `target_root`.
    pub target: Template,
    /// Mount attributes.
    pub attrs: MountAttrs,
    /// The file that defined this set.
    pub origin: String,
}

/// What a group set stands for.
#[verifier::ext_equal]
pub struct SetView {
    /// Set name.
    pub name: Seq<char>,
    /// Membership root.
    pub membership_root: Seq<char>,
    /// Source root.
    pub source_root: Seq<char>,
    /// Source template.
    pub source: TemplateView,
    /// Target root.
    pub target_root: Seq<char>,
    /// Target template.
    pub target: TemplateView,
    /// Mount attributes.
    pub attrs: MountAttrs,
    /// The file that defined this set.
    pub origin: Seq<char>,
}

impl View for GroupSetConfig {
    type V = SetView;

    open spec fn view(&self) -> SetView {
        SetView {
            name: self.name@,
            membership_root: self.membership_root@,
            source_root: self.source_root@,
            source: self.source@,
            target_root: self.target_root@,
            target: self.target@,
            attrs: self.attrs,
            origin: self.origin@,
        }
    }
}

/// The number of directory levels that a template refers to.
pub open spec fn template_depth(t: TemplateView) -> nat {
    if has_piece(t.components, PieceView::Level(1)) {
        2
    } else if has_piece(t.components, PieceView::Level(0)) {
        1
    } else {
        0
    }
}

/// The number of directory levels of a set with two templates, at least one.
pub open spec fn set_depth(source: TemplateView, target: TemplateView) -> nat {
    let a = template_depth(source);
    let b = template_depth(target);
    if a == 2 || b == 2 {
        2
    } else {
        1
    }
}

/// Whether a target template refers to every directory level, so that every
/// group has its own view.
pub open spec fn has_every_level(target: TemplateView, depth: nat) -> bool {
    &&& has_piece(target.components, PieceView::Level(0))
    &&& depth == 2 ==> has_piece(target.components, PieceView::Level(1))
}

// Validation.

/// What is wrong with one absolute path of a set.
pub open spec fn set_path_issues(
    path: Seq<char>,
    set: Seq<char>,
    field: Seq<char>,
    value: Seq<char>,
) -> Seq<IssueView> {
    match check_path(value) {
        Ok(_) => Seq::empty(),
        Err(e) => seq![error(path, Some(set_label(set)), field + ": "@ + e.text())],
    }
}

/// What is wrong with one template of a set.
pub open spec fn set_template_issues(
    path: Seq<char>,
    set: Seq<char>,
    field: Seq<char>,
    value: Seq<char>,
) -> Seq<IssueView> {
    match parse_template(value, true) {
        Ok(_) => Seq::empty(),
        Err(e) => seq![error(path, Some(set_label(set)), field + ": "@ + e.text())],
    }
}

/// The issue of a target template without a directory level.
pub open spec fn level_issue(path: Seq<char>, set: Seq<char>, level: nat) -> IssueView {
    error(
        path,
        Some(set_label(set)),
        "target: "@ + TemplateErrorView::MissingLevel(level_text(level)).text(),
    )
}

/// What is wrong with the directory levels of a target template.
pub open spec fn level_issues(
    path: Seq<char>,
    set: Seq<char>,
    source: TemplateView,
    target: TemplateView,
) -> Seq<IssueView> {
    (if has_piece(target.components, PieceView::Level(0)) {
        Seq::empty()
    } else {
        seq![level_issue(path, set, 0)]
    }) + (if set_depth(source, target) < 2 || has_piece(target.components, PieceView::Level(1)) {
        Seq::empty()
    } else {
        seq![level_issue(path, set, 1)]
    })
}

/// What is wrong with a group set definition, field by field. The levels are
/// looked at once both templates can be parsed.
pub open spec fn set_issues(name: Seq<char>, raw: RawSetView, path: Seq<char>) -> Seq<IssueView> {
    set_path_issues(path, name, "membership_root"@, raw.membership_root) + set_path_issues(
        path,
        name,
        "source_root"@,
        raw.source_root,
    ) + set_path_issues(path, name, "target_root"@, raw.target_root) + set_template_issues(
        path,
        name,
        "source"@,
        raw.source,
    ) + set_template_issues(path, name, "target"@, raw.target) + (match (
        parse_template(raw.source, true),
        parse_template(raw.target, true),
    ) {
        (Ok(source), Ok(target)) => level_issues(path, name, source, target),
        _ => Seq::empty(),
    })
}

/// The set that a definition gives, if every field of it is valid.
pub open spec fn set_of(name: Seq<char>, raw: RawSetView, path: Seq<char>) -> Option<SetView> {
    if check_path(raw.membership_root) is Ok && check_path(raw.source_root) is Ok && check_path(
        raw.target_root,
    ) is Ok && parse_template(raw.source, true) is Ok && parse_template(raw.target, true) is Ok
        && has_every_level(
        parse_template(raw.target, true)->Ok_0,
        set_depth(parse_template(raw.source, true)->Ok_0, parse_template(raw.target, true)->Ok_0),
    ) {
        Some(
            SetView {
                name,
                membership_root: check_path(raw.membership_root)->Ok_0,
                source_root: check_path(raw.source_root)->Ok_0,
                source: parse_template(raw.source, true)->Ok_0,
                target_root: check_path(raw.target_root)->Ok_0,
                target: parse_template(raw.target, true)->Ok_0,
                attrs: MountAttrs {
                    read_only: setting(raw.read_only, true),
                    noexec: setting(raw.noexec, true),
                    nosymfollow: setting(raw.nosymfollow, false),
                },
                origin: path,
            },
        )
    } else {
        None
    }
}

fn validate_set_path(
    value: &str,
    field: &str,
    name: &Name,
    path: &str,
    issues: &mut Vec<Issue>,
) -> (r: Option<AbsPath>)
    ensures
        match r {
            Some(p) => check_path(value@) == Ok::<Seq<char>, AbsPathErrorView>(p@),
            None => check_path(value@) is Err,
        },
        issue_views(final(issues)@) == issue_views(old(issues)@) + set_path_issues(
            path@,
            name@,
            field@,
            value@,
        ),
{
    let ghost start = issue_views(issues@);
    match AbsPath::new(value) {
        Ok(p) => {
            assert(issue_views(issues@) =~= start + set_path_issues(path@, name@, field@, value@));
            Some(p)
        },
        Err(e) => {
            push_error(
                issues,
                path,
                Some(set_text(name).as_str()),
                field_message(field, e.message().as_str()),
            );
            assert(issue_views(issues@) =~= start + set_path_issues(path@, name@, field@, value@));
            None
        },
    }
}

fn validate_set_template(
    value: &str,
    field: &str,
    name: &Name,
    path: &str,
    issues: &mut Vec<Issue>,
) -> (r: Option<Template>)
    ensures
        match r {
            Some(t) => parse_template(value@, true) == Ok::<TemplateView, TemplateErrorView>(t@),
            None => parse_template(value@, true) is Err,
        },
        issue_views(final(issues)@) == issue_views(old(issues)@) + set_template_issues(
            path@,
            name@,
            field@,
            value@,
        ),
{
    let ghost start = issue_views(issues@);
    match Template::parse_for_set(value) {
        Ok(t) => {
            assert(issue_views(issues@) =~= start + set_template_issues(
                path@,
                name@,
                field@,
                value@,
            ));
            Some(t)
        },
        Err(e) => {
            push_error(
                issues,
                path,
                Some(set_text(name).as_str()),
                field_message(field, e.message().as_str()),
            );
            assert(issue_views(issues@) =~= start + set_template_issues(
                path@,
                name@,
                field@,
                value@,
            ));
            None
        },
    }
}

fn check_levels(source: &Template, target: &Template, name: &Name, path: &str, issues: &mut Vec<Issue>) -> (r:
    bool)
    ensures
        r == has_every_level(target@, set_depth(source@, target@)),
        issue_views(final(issues)@) == issue_views(old(issues)@) + level_issues(
            path@,
            name@,
            source@,
            target@,
        ),
{
    let ghost start = issue_views(issues@);
    let first = target.has_level(0);
    let second = target.has_level(1);
    let deep = second || source.has_level(1);
    if !first {
        push_error(
            issues,
            path,
            Some(set_text(name).as_str()),
            two(
                "target: ",
                TemplateError::MissingLevel(Template::level_placeholder(0)).message().as_str(),
            ),
        );
    }
    if deep && !second {
        push_error(
            issues,
            path,
            Some(set_text(name).as_str()),
            two(
                "target: ",
                TemplateError::MissingLevel(Template::level_placeholder(1)).message().as_str(),
            ),
        );
    }
    assert(issue_views(issues@) =~= start + level_issues(path@, name@, source@, target@));
    first && (!deep || second)
}

fn validate_set(name: Name, raw: &RawSet, path: &str, issues: &mut Vec<Issue>) -> (r: Option<
    GroupSetConfig,
>)
    ensures
        match r {
            Some(s) => set_of(name@, raw@, path@) == Some(s@),
            None => set_of(name@, raw@, path@) is None,
        },
        issue_views(final(issues)@) == issue_views(old(issues)@) + set_issues(name@, raw@, path@),
{
    let ghost start = issue_views(issues@);
    let membership_root = validate_set_path(
        raw.membership_root.as_str(),
        "membership_root",
        &name,
        path,
        issues,
    );
    let source_root = validate_set_path(
        raw.source_root.as_str(),
        "source_root",
        &name,
        path,
        issues,
    );
    let target_root = validate_set_path(
        raw.target_root.as_str(),
        "target_root",
        &name,
        path,
        issues,
    );
    let source = validate_set_template(raw.source.as_str(), "source", &name, path, issues);
    let target = validate_set_template(raw.target.as_str(), "target", &name, path, issues);
    let complete = match (&source, &target) {
        (Some(source), Some(target)) => check_levels(source, target, &name, path, issues),
        _ => false,
    };
    assert(issue_views(issues@) =~= start + set_issues(name@, raw@, path@));
    match (membership_root, source_root, target_root, source, target) {
        (
            Some(membership_root),
            Some(source_root),
            Some(target_root),
            Some(source),
            Some(target),
        ) => if complete {
            Some(
                GroupSetConfig {
                    name,
                    membership_root,
                    source_root,
                    source,
                    target_root,
                    target,
                    attrs: MountAttrs {
                        read_only: or_default(raw.read_only, true),
                        noexec: or_default(raw.noexec, true),
                        nosymfollow: or_default(raw.nosymfollow, false),
                    },
                    origin: path.to_owned(),
                },
            )
        } else {
            None
        },
        _ => None,
    }
}

// Assembling.

/// The sets that have been assembled so far.
#[verifier::ext_equal]
pub struct SetAssembly {
    /// The sets.
    pub sets: Map<Seq<char>, SetView>,
    /// The file that first defined each set, valid or not.
    pub origins: Map<Seq<char>, Seq<char>>,
    /// Issues.
    pub issues: Seq<IssueView>,
}

/// Assembling one set definition. A name may be defined only once.
pub open spec fn assemble_set(
    a: SetAssembly,
    path: Seq<char>,
    name: Seq<char>,
    raw: RawSetView,
) -> SetAssembly {
    match check_text(name) {
        Err(e) => SetAssembly {
            issues: a.issues.push(
                error(path, Some(set_label(name)), "invalid group set name: "@ + e.text()),
            ),
            ..a
        },
        Ok(_) => if a.origins.contains_key(name) {
            SetAssembly {
                issues: a.issues.push(
                    error(
                        path,
                        Some(set_label(name)),
                        "group set is already defined in "@ + a.origins[name],
                    ),
                ),
                ..a
            }
        } else {
            SetAssembly {
                sets: match set_of(name, raw, path) {
                    Some(s) => a.sets.insert(name, s),
                    None => a.sets,
                },
                origins: a.origins.insert(name, path),
                issues: a.issues + set_issues(name, raw, path),
            }
        },
    }
}

/// Assembling the sets of a file among `names`, in order.
pub open spec fn assemble_sets(
    a: SetAssembly,
    path: Seq<char>,
    sets: Map<Seq<char>, RawSetView>,
    names: Seq<Seq<char>>,
) -> SetAssembly
    decreases names.len(),
{
    if names.len() == 0 {
        a
    } else {
        assemble_set(
            assemble_sets(a, path, sets, names.drop_last()),
            path,
            names.last(),
            sets[names.last()],
        )
    }
}

/// Assembling the sets of the files, in order.
pub open spec fn assemble_set_files(files: Seq<ParsedView>) -> SetAssembly
    decreases files.len(),
{
    if files.len() == 0 {
        SetAssembly { sets: Map::empty(), origins: Map::empty(), issues: Seq::empty() }
    } else {
        let file = files.last();
        assemble_sets(
            assemble_set_files(files.drop_last()),
            file.path,
            file.raw.sets,
            in_order::<String>(file.raw.sets.dom()),
        )
    }
}

spec fn sets_view(
    sets: Table<Name, GroupSetConfig>,
    origins: Table<Name, String>,
    before: Seq<IssueView>,
    issues: Seq<Issue>,
    a: SetAssembly,
) -> bool {
    &&& sets@ == a.sets
    &&& origins@ == a.origins
    &&& issue_views(issues) == before + a.issues
}

fn label_text(name: &str) -> (r: String)
    ensures
        r@ == set_label(name@),
{
    let mut out = name.to_owned();
    out.append("/*");
    out
}

fn assemble_one_set(
    sets: &mut Table<Name, GroupSetConfig>,
    origins: &mut Table<Name, String>,
    issues: &mut Vec<Issue>,
    path: &str,
    set_name: &str,
    raw: &RawSet,
    Ghost(before): Ghost<Seq<IssueView>>,
    Ghost(a): Ghost<SetAssembly>,
)
    requires
        sets_view(*old(sets), *old(origins), before, old(issues)@, a),
    ensures
        sets_view(
            *final(sets),
            *final(origins),
            before,
            final(issues)@,
            assemble_set(a, path@, set_name@, raw@),
        ),
{
    let name = match Name::new(set_name) {
        Ok(name) => name,
        Err(e) => {
            push_error(
                issues,
                path,
                Some(label_text(set_name).as_str()),
                two("invalid group set name: ", e.message().as_str()),
            );
            assert(issue_views(issues@) =~= before + assemble_set(
                a,
                path@,
                set_name@,
                raw@,
            ).issues);
            return ;
        },
    };
    if let Some(first) = origins.get(&name) {
        push_error(
            issues,
            path,
            Some(label_text(set_name).as_str()),
            two("group set is already defined in ", first.as_str()),
        );
        assert(issue_views(issues@) =~= before + assemble_set(a, path@, set_name@, raw@).issues);
        return ;
    }
    let _ = origins.insert(name.clone(), path.to_owned());
    let key = name.clone();
    if let Some(set) = validate_set(name, raw, path, issues) {
        let _ = sets.insert(key, set);
    }
    assert(issue_views(issues@) =~= before + assemble_set(a, path@, set_name@, raw@).issues);
}

/// Validates the group sets that the files define, adding what is wrong to the
/// issues.
pub fn collect_sets(files: &Vec<ParsedFile>, issues: &mut Vec<Issue>) -> (r: Table<
    Name,
    GroupSetConfig,
>)
    ensures
        r@ == assemble_set_files(parsed_views(files@)).sets,
        issue_views(final(issues)@) == issue_views(old(issues)@) + assemble_set_files(
            parsed_views(files@),
        ).issues,
{
    let ghost before = issue_views(issues@);
    let ghost views = parsed_views(files@);
    let mut sets: Table<Name, GroupSetConfig> = Table::new();
    let mut origins: Table<Name, String> = Table::new();
    let mut i: usize = 0;
    assert(before + assemble_set_files(views.take(0)).issues =~= before);
    while i < files.len()
        invariant
            i <= files@.len(),
            views == parsed_views(files@),
            sets_view(sets, origins, before, issues@, assemble_set_files(views.take(i as int))),
        decreases files@.len() - i,
    {
        let file = &files[i];
        let path = file.path.as_str();
        let ghost start = assemble_set_files(views.take(i as int));
        proof {
            assert(views.take(i + 1).drop_last() =~= views.take(i as int));
            assert(views.take(i + 1).last() == file@);
        }
        let found = &file.raw.sets;
        let n: usize = found.len();
        let ghost names = found.keys();
        let mut j: usize = 0;
        while j < n
            invariant
                j <= n,
                n == names.len(),
                names == found.keys(),
                found@ == file@.raw.sets,
                path@ == file@.path,
                sets_view(
                    sets,
                    origins,
                    before,
                    issues@,
                    assemble_sets(start, path@, found@, names.take(j as int)),
                ),
            decreases n - j,
        {
            let set_name = found.key_at(j);
            let raw = found.value_at(j);
            let ghost a = assemble_sets(start, path@, found@, names.take(j as int));
            proof {
                assert(names.take(j + 1).drop_last() =~= names.take(j as int));
                assert(names.take(j + 1).last() == set_name@);
            }
            assemble_one_set(
                &mut sets,
                &mut origins,
                issues,
                path,
                set_name.as_str(),
                raw,
                Ghost(before),
                Ghost(a),
            );
            j += 1;
        }
        assert(names.take(names.len() as int) =~= names);
        i += 1;
    }
    assert(views.take(views.len() as int) =~= views);
    sets
}

// Membership directories and target roots.

/// Where the memberships of a group or a set are, and where its views are.
#[verifier::ext_equal]
pub struct Zone {
    /// The group, or the label of the set.
    pub label: Seq<char>,
    /// The file that defined it.
    pub origin: Seq<char>,
    /// Membership directory or root.
    pub membership: Seq<char>,
    /// Target root.
    pub target_root: Seq<char>,
}

/// The zone of a group.
pub open spec fn group_zone(g: GroupView) -> Zone {
    Zone {
        label: g.name,
        origin: g.origin,
        membership: g.membership,
        target_root: g.target_root,
    }
}

/// The zone of a set.
pub open spec fn set_zone(s: SetView) -> Zone {
    Zone {
        label: set_label(s.name),
        origin: s.origin,
        membership: s.membership_root,
        target_root: s.target_root,
    }
}

/// Whether the memberships of a zone lie at or beneath a target root.
pub open spec fn zone_beneath(a: Zone, b: Zone) -> bool {
    components(b.target_root).is_prefix_of(components(a.membership))
}

/// The issue of memberships at or beneath a target root.
pub open spec fn zone_issue(a: Zone, b: Zone) -> IssueView {
    error(
        a.origin,
        Some(a.label),
        "membership directory "@ + a.membership + " must not be at or beneath target_root "@
            + b.target_root + (if a.label == b.label {
            Seq::empty()
        } else {
            " of group '"@ + b.label + "'"@
        }),
    )
}

/// The issues of one zone against others, in order.
pub open spec fn zone_issues(a: Zone, others: Seq<Zone>) -> Seq<IssueView>
    decreases others.len(),
{
    if others.len() == 0 {
        Seq::empty()
    } else {
        let front = zone_issues(a, others.drop_last());
        if zone_beneath(a, others.last()) {
            front.push(zone_issue(a, others.last()))
        } else {
            front
        }
    }
}

/// The issues of zones against others, in order.
pub open spec fn all_zone_issues(zones: Seq<Zone>, others: Seq<Zone>) -> Seq<IssueView>
    decreases zones.len(),
{
    if zones.len() == 0 {
        Seq::empty()
    } else {
        all_zone_issues(zones.drop_last(), others) + zone_issues(zones.last(), others)
    }
}

/// The zones of the groups.
pub open spec fn group_zones(groups: Map<Seq<char>, GroupView>) -> Seq<Zone> {
    in_order::<Name>(groups.dom()).map_values(|n: Seq<char>| group_zone(groups[n]))
}

/// The zones of the sets.
pub open spec fn set_zones(sets: Map<Seq<char>, SetView>) -> Seq<Zone> {
    in_order::<Name>(sets.dom()).map_values(|n: Seq<char>| set_zone(sets[n]))
}

/// The issues between sets and groups: no membership root of a set lies at or
/// beneath a target root, and no membership directory at or beneath the target
/// root of a set.
pub open spec fn set_cross_issues(
    groups: Map<Seq<char>, GroupView>,
    sets: Map<Seq<char>, SetView>,
) -> Seq<IssueView> {
    all_zone_issues(set_zones(sets), group_zones(groups) + set_zones(sets)) + all_zone_issues(
        group_zones(groups),
        set_zones(sets),
    )
}

struct Place {
    label: String,
    origin: String,
    membership: AbsPath,
    target_root: AbsPath,
}

impl View for Place {
    type V = Zone;

    closed spec fn view(&self) -> Zone {
        Zone {
            label: self.label@,
            origin: self.origin@,
            membership: self.membership@,
            target_root: self.target_root@,
        }
    }
}

spec fn place_views(places: Seq<Place>) -> Seq<Zone> {
    places.map_values(|p: Place| p@)
}

fn group_places(config: &Config) -> (r: Vec<Place>)
    ensures
        place_views(r@) == group_zones(config@.groups),
{
    let n: usize = config.groups.len();
    let ghost names = config.groups.keys();
    let ghost all = group_zones(config@.groups);
    let mut out: Vec<Place> = Vec::new();
    let mut i: usize = 0;
    assert(place_views(out@) =~= all.take(0));
    while i < n
        invariant
            i <= n,
            n == names.len(),
            names == config.groups.keys(),
            all == group_zones(config@.groups),
            place_views(out@) == all.take(i as int),
        decreases n - i,
    {
        let g = config.groups.value_at(i);
        let ghost before = place_views(out@);
        let place = Place {
            label: g.name.as_str().to_owned(),
            origin: g.origin.clone(),
            membership: g.membership.clone(),
            target_root: g.target_root.clone(),
        };
        assert(place@ =~= all[i as int]);
        out.push(place);
        assert(place_views(out@) =~= before.push(all[i as int]));
        assert(all.take(i + 1) =~= all.take(i as int).push(all[i as int]));
        i += 1;
    }
    assert(all.take(all.len() as int) =~= all);
    out
}

fn set_places(config: &Config) -> (r: Vec<Place>)
    ensures
        place_views(r@) == set_zones(config@.sets),
{
    let n: usize = config.sets.len();
    let ghost names = config.sets.keys();
    let ghost all = set_zones(config@.sets);
    let mut out: Vec<Place> = Vec::new();
    let mut i: usize = 0;
    assert(place_views(out@) =~= all.take(0));
    while i < n
        invariant
            i <= n,
            n == names.len(),
            names == config.sets.keys(),
            all == set_zones(config@.sets),
            place_views(out@) == all.take(i as int),
        decreases n - i,
    {
        let s = config.sets.value_at(i);
        let ghost before = place_views(out@);
        let place = Place {
            label: set_text(&s.name),
            origin: s.origin.clone(),
            membership: s.membership_root.clone(),
            target_root: s.target_root.clone(),
        };
        assert(place@ =~= all[i as int]);
        out.push(place);
        assert(place_views(out@) =~= before.push(all[i as int]));
        assert(all.take(i + 1) =~= all.take(i as int).push(all[i as int]));
        i += 1;
    }
    assert(all.take(all.len() as int) =~= all);
    out
}

fn check_place(a: &Place, others: &Vec<Place>, issues: &mut Vec<Issue>)
    ensures
        issue_views(final(issues)@) == issue_views(old(issues)@) + zone_issues(
            a@,
            place_views(others@),
        ),
{
    let ghost start = issue_views(issues@);
    let ghost views = place_views(others@);
    let mut i: usize = 0;
    assert(issue_views(issues@) =~= start + zone_issues(a@, views.take(0)));
    while i < others.len()
        invariant
            i <= others@.len(),
            views == place_views(others@),
            issue_views(issues@) == start + zone_issues(a@, views.take(i as int)),
        decreases others@.len() - i,
    {
        let b = &others[i];
        let ghost before = issue_views(issues@);
        proof {
            assert(views.take(i + 1).drop_last() =~= views.take(i as int));
            assert(views.take(i + 1).last() == b@);
        }
        if a.membership.is_at_or_beneath(&b.target_root) {
            let mut message = String::new();
            message.append("membership directory ");
            message.append(a.membership.as_path());
            message.append(" must not be at or beneath target_root ");
            message.append(b.target_root.as_path());
            if !crate::text::same(a.label.as_str(), b.label.as_str()) {
                message.append(" of group '");
                message.append(b.label.as_str());
                message.append("'");
            }
            assert(message@ =~= zone_issue(a@, b@).message);
            push_error(issues, a.origin.as_str(), Some(a.label.as_str()), message);
            assert(issue_views(issues@) =~= before.push(zone_issue(a@, b@)));
        }
        i += 1;
        assert(issue_views(issues@) =~= start + zone_issues(a@, views.take(i as int)));
    }
    assert(views.take(views.len() as int) =~= views);
}

fn check_places(places: &Vec<Place>, others: &Vec<Place>, issues: &mut Vec<Issue>)
    ensures
        issue_views(final(issues)@) == issue_views(old(issues)@) + all_zone_issues(
            place_views(places@),
            place_views(others@),
        ),
{
    let ghost start = issue_views(issues@);
    let ghost views = place_views(places@);
    let ghost all = place_views(others@);
    let mut i: usize = 0;
    assert(issue_views(issues@) =~= start + all_zone_issues(views.take(0), all));
    while i < places.len()
        invariant
            i <= places@.len(),
            views == place_views(places@),
            all == place_views(others@),
            issue_views(issues@) == start + all_zone_issues(views.take(i as int), all),
        decreases places@.len() - i,
    {
        proof {
            assert(views.take(i + 1).drop_last() =~= views.take(i as int));
            assert(views.take(i + 1).last() == places@[i as int]@);
        }
        check_place(&places[i], others, issues);
        i += 1;
        assert(issue_views(issues@) =~= start + all_zone_issues(views.take(i as int), all));
    }
    assert(views.take(views.len() as int) =~= views);
}

/// Checks the sets against one another and against the groups.
pub fn check_cross_set(config: &Config, issues: &mut Vec<Issue>)
    ensures
        issue_views(final(issues)@) == issue_views(old(issues)@) + set_cross_issues(
            config@.groups,
            config@.sets,
        ),
{
    let ghost start = issue_views(issues@);
    let groups = group_places(config);
    let sets = set_places(config);
    let mut all = group_places(config);
    let mut more = set_places(config);
    let ghost g = place_views(groups@);
    let ghost s = place_views(sets@);
    all.append(&mut more);
    assert(place_views(all@) =~= g + s);
    check_places(&sets, &all, issues);
    check_places(&groups, &sets, issues);
    assert(issue_views(issues@) =~= start + set_cross_issues(config@.groups, config@.sets));
}

// Laws.

/// Whether the targets of every set refer to every directory level of the set.
pub open spec fn complete_sets(sets: Map<Seq<char>, SetView>) -> bool {
    forall|name: Seq<char>| #[trigger]
        sets.contains_key(name) ==> has_every_level(
            sets[name].target,
            set_depth(sets[name].source, sets[name].target),
        )
}

proof fn lemma_assemble_sets_complete(
    a: SetAssembly,
    path: Seq<char>,
    sets: Map<Seq<char>, RawSetView>,
    names: Seq<Seq<char>>,
)
    requires
        complete_sets(a.sets),
    ensures
        complete_sets(assemble_sets(a, path, sets, names).sets),
    decreases names.len(),
{
    if names.len() > 0 {
        lemma_assemble_sets_complete(a, path, sets, names.drop_last());
    }
}

/// Every directory level of a validated set occurs in its target, so that no
/// two groups share a view by having a level left out.
pub proof fn law_validated_sets_are_complete(files: Seq<ParsedView>)
    ensures
        complete_sets(assemble_set_files(files).sets),
    decreases files.len(),
{
    if files.len() > 0 {
        law_validated_sets_are_complete(files.drop_last());
        lemma_assemble_sets_complete(
            assemble_set_files(files.drop_last()),
            files.last().path,
            files.last().raw.sets,
            in_order::<String>(files.last().raw.sets.dom()),
        );
    }
}

proof fn lemma_zone_issues_grow(a: Zone, others: Seq<Zone>, k: int)
    requires
        0 <= k < others.len(),
        zone_beneath(a, others[k]),
    ensures
        zone_issues(a, others).contains(zone_issue(a, others[k])),
    decreases others.len(),
{
    let issue = zone_issue(a, others[k]);
    let all = zone_issues(a, others);
    let front = zone_issues(a, others.drop_last());
    if k < others.len() - 1 {
        lemma_zone_issues_grow(a, others.drop_last(), k);
        assert(others.drop_last()[k] == others[k]);
        let j = choose|j: int| 0 <= j < front.len() && front[j] == issue;
        assert(all[j] == issue);
    } else {
        assert(all[all.len() - 1] == issue);
    }
}

/// Memberships of a group or a set that lie at or beneath a target root are an
/// error: whoever could write a view could then change a membership.
pub proof fn law_zones_are_apart(zones: Seq<Zone>, others: Seq<Zone>, i: int, k: int)
    requires
        0 <= i < zones.len(),
        0 <= k < others.len(),
        zone_beneath(zones[i], others[k]),
    ensures
        crate::config::has_error(all_zone_issues(zones, others)),
    decreases zones.len(),
{
    let found = all_zone_issues(zones, others);
    let front = all_zone_issues(zones.drop_last(), others);
    let last = zone_issues(zones.last(), others);
    if i < zones.len() - 1 {
        law_zones_are_apart(zones.drop_last(), others, i, k);
        let j = choose|j: int|
            0 <= j < front.len() && (#[trigger] front[j]).severity
                == crate::config::Severity::Error;
        assert(found[j] == front[j]);
    } else {
        lemma_zone_issues_grow(zones.last(), others, k);
        let issue = zone_issue(zones[i], others[k]);
        let j = choose|j: int| 0 <= j < last.len() && last[j] == issue;
        assert(found[front.len() + j] == issue);
    }
}

/// A set is accepted only if its target keeps its groups apart: it refers to the
/// first directory level, and to the second one where either template does.
pub proof fn law_sets_keep_their_groups_apart(name: Seq<char>, raw: RawSetView, path: Seq<char>)
    ensures
        set_of(name, raw, path) matches Some(s) ==> {
            &&& has_piece(s.target.components, PieceView::Level(0))
            &&& has_piece(s.source.components, PieceView::Level(1)) ==> has_piece(
                s.target.components,
                PieceView::Level(1),
            )
        },
        set_of(name, raw, path) is Some <==> set_issues(name, raw, path).len() == 0,
{
}

/// A set is as deep as the deepest level that its templates refer to, and at
/// least one level deep.
pub proof fn law_sets_are_as_deep_as_their_templates(source: TemplateView, target: TemplateView)
    ensures
        set_depth(source, target) == 2 <==> has_piece(source.components, PieceView::Level(1))
            || has_piece(target.components, PieceView::Level(1)),
        set_depth(source, target) == 1 || set_depth(source, target) == 2,
{
}

} // verus!
