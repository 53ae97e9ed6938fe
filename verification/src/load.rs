//! Loading a configuration step by step: the steps are taken here, in order, and
//! each says what has to be looked at on disk before the next.
//!
//! [`gather_files`] takes what reading the files gave, [`Gathered::validate`]
//! who may write them, and [`Validated::finish`] which of the directories that
//! the configuration names exist.
use vstd::prelude::*;

use crate::config::{dir_issue, dir_views, directories, document_views, gather, gather_issues, gathered, has_error, has_errors, issue_views, named_dirs, owned_paths, ownership_issues, ownership_of, ownership_paths, parse_issues, parsed_of, path_issue, resolved_view, settle, source_views, validate, validated, Config, ConfigView, DirOutcome, Document, DocumentView, Examined, ExaminedView, Issue, IssueView, ListOutcome, ListView, LoadError, LoadOptions, Loaded, NamedDir, NamedDirView, OptionsView, ReadOutcome, ReadView, Source, SourceView};
use crate::raw::{parse_file, parsed_text};
use crate::text::texts;

verus! {

/// What resolving and examining a configuration path gives: the file and the
/// directory that contains it, or why the path does not resolve.
pub type Resolved = Result<Vec<Examined>, String>;

/// What resolving and examining a configuration path says.
pub type ResolvedView = Result<Seq<ExaminedView>, Seq<char>>;

/// What was found of each path.
pub open spec fn resolved_views(found: Seq<Resolved>) -> Seq<ResolvedView> {
    found.map_values(|r: Resolved| resolved_view(r))
}

/// What is wrong with who may write the paths, from what was found of each.
pub open spec fn owner_issues(
    paths: Seq<Seq<char>>,
    options: OptionsView,
    found: Seq<ResolvedView>,
) -> Seq<IssueView>
    decreases paths.len(),
{
    if paths.len() == 0 {
        Seq::empty()
    } else {
        owner_issues(paths.drop_last(), options, found) + ownership_of(
            paths.last(),
            options,
            found[paths.len() - 1],
        )
    }
}

/// What is wrong with the directories, from what came of looking for each.
pub open spec fn look_issues(dirs: Seq<NamedDirView>, found: Seq<DirOutcome>) -> Seq<IssueView>
    decreases dirs.len(),
{
    if dirs.len() == 0 {
        Seq::empty()
    } else {
        let front = look_issues(dirs.drop_last(), found);
        match dir_issue(dirs.last(), found[dirs.len() - 1]) {
            Some(issue) => front.push(issue),
            None => front,
        }
    }
}

/// The files as they are parsed.
pub open spec fn parsed_sources(sources: Seq<SourceView>) -> Seq<DocumentView> {
    sources.map_values(
        |s: SourceView|
            (DocumentView { path: s.path, content: parsed_text(s.content), main: s.main }),
    )
}

/// Judges the directories that a configuration names, from what came of looking
/// for each.
pub fn judge_dirs(dirs: &Vec<NamedDir>, found: &Vec<DirOutcome>, issues: &mut Vec<Issue>)
    requires
        found@.len() == dirs@.len(),
    ensures
        issue_views(final(issues)@) == issue_views(old(issues)@) + look_issues(
            dir_views(dirs@),
            found@,
        ),
{
    let ghost start = issue_views(issues@);
    let ghost views = dir_views(dirs@);
    let mut i: usize = 0;
    assert(issue_views(issues@) =~= start + look_issues(views.take(0), found@));
    while i < dirs.len()
        invariant
            i <= dirs@.len(),
            found@.len() == dirs@.len(),
            views == dir_views(dirs@),
            issue_views(issues@) == start + look_issues(views.take(i as int), found@),
        decreases dirs@.len() - i,
    {
        proof {
            assert(views.take(i + 1).drop_last() =~= views.take(i as int));
            assert(views.take(i + 1).last() == dirs@[i as int]@);
        }
        path_issue(&dirs[i], &found[i], issues);
        i += 1;
        assert(issue_views(issues@) =~= start + look_issues(views.take(i as int), found@));
    }
    assert(views.take(views.len() as int) =~= views);
}

fn judge_owners(
    paths: &Vec<String>,
    options: &LoadOptions,
    found: &Vec<Resolved>,
    issues: &mut Vec<Issue>,
)
    requires
        found@.len() == paths@.len(),
    ensures
        issue_views(final(issues)@) == issue_views(old(issues)@) + owner_issues(
            texts(paths@),
            options@,
            resolved_views(found@),
        ),
{
    let ghost start = issue_views(issues@);
    let ghost all = texts(paths@);
    let ghost views = resolved_views(found@);
    let mut i: usize = 0;
    assert(issue_views(issues@) =~= start + owner_issues(all.take(0), options@, views));
    while i < paths.len()
        invariant
            i <= paths@.len(),
            found@.len() == paths@.len(),
            all == texts(paths@),
            views == resolved_views(found@),
            issue_views(issues@) == start + owner_issues(all.take(i as int), options@, views),
        decreases paths@.len() - i,
    {
        proof {
            assert(all.take(i + 1).drop_last() =~= all.take(i as int));
            assert(all.take(i + 1).last() == paths@[i as int]@);
            assert(views[i as int] == resolved_view(found@[i as int]));
        }
        ownership_issues(paths[i].as_str(), options, &found[i], issues);
        i += 1;
        assert(issue_views(issues@) =~= start + owner_issues(all.take(i as int), options@, views));
    }
    assert(all.take(all.len() as int) =~= all);
}

fn parse_sources(sources: &Vec<Source>) -> (r: Vec<Document>)
    ensures
        document_views(r@) == parsed_sources(source_views(sources@)),
{
    let ghost all = parsed_sources(source_views(sources@));
    let mut out: Vec<Document> = Vec::new();
    let mut i: usize = 0;
    assert(document_views(out@) =~= all.take(0));
    while i < sources.len()
        invariant
            i <= sources@.len(),
            all == parsed_sources(source_views(sources@)),
            document_views(out@) == all.take(i as int),
        decreases sources@.len() - i,
    {
        let ghost before = document_views(out@);
        let s = &sources[i];
        let document = Document {
            path: s.path.clone(),
            content: parse_file(s.content.as_str()),
            main: s.main,
        };
        assert(document@ == all[i as int]);
        out.push(document);
        assert(document_views(out@) =~= before.push(all[i as int]));
        i += 1;
        assert(document_views(out@) =~= all.take(i as int));
    }
    assert(all.take(all.len() as int) =~= all);
    out
}

/// The files of a configuration, and what was wrong with reading them.
#[derive(Debug)]
pub struct Gathered {
    sources: Vec<Source>,
    issues: Vec<Issue>,
}

/// What gathered files stand for.
#[verifier::ext_equal]
pub struct GatheredView {
    /// The files that were read.
    pub sources: Seq<SourceView>,
    /// What is wrong so far.
    pub issues: Seq<IssueView>,
}

impl View for Gathered {
    type V = GatheredView;

    closed spec fn view(&self) -> GatheredView {
        GatheredView { sources: source_views(self.sources@), issues: issue_views(self.issues@) }
    }
}

/// The files that are there, and what is wrong with them on top of `before`.
pub open spec fn files_of(
    options: OptionsView,
    main: ReadView,
    dir: ListView,
    before: Seq<IssueView>,
) -> GatheredView {
    GatheredView {
        sources: gathered(options, main, dir),
        issues: before + gather_issues(options, main, dir),
    }
}

/// The first step: from what came of reading the main file and of listing and
/// reading the fragments. `issues` is what is wrong already.
pub fn gather_files(
    options: &LoadOptions,
    main: ReadOutcome,
    dir: ListOutcome,
    issues: Vec<Issue>,
) -> (r: Gathered)
    ensures
        r@ == files_of(options@, main@, dir@, issue_views(issues@)),
{
    let mut issues = issues;
    let sources = gather(options, main, dir, &mut issues);
    Gathered { sources, issues }
}

/// What a validated configuration stands for.
#[verifier::ext_equal]
pub struct ValidatedView {
    /// The configuration.
    pub config: ConfigView,
    /// What is wrong so far.
    pub issues: Seq<IssueView>,
    /// The directories to look for.
    pub dirs: Seq<NamedDirView>,
}

/// The directories to look for: those that the configuration names, unless
/// something is wrong already.
pub open spec fn due(config: ConfigView, issues: Seq<IssueView>) -> Seq<NamedDirView> {
    if has_error(issues) {
        Seq::empty()
    } else {
        named_dirs(config)
    }
}

/// The directories to look for: those that the configuration names, unless
/// something is wrong already.
pub fn due_dirs(config: &Config, issues: &Vec<Issue>) -> (r: Vec<NamedDir>)
    ensures
        dir_views(r@) == due(config@, issue_views(issues@)),
{
    if has_errors(issues) {
        let none: Vec<NamedDir> = Vec::new();
        assert(dir_views(none@) =~= Seq::<NamedDirView>::empty());
        none
    } else {
        directories(config)
    }
}

/// What the files say once it is known who may write them. The directories that
/// the configuration names are looked for only if that is asked for and nothing
/// is wrong so far.
pub open spec fn validated_of(
    files: GatheredView,
    options: OptionsView,
    found: Seq<ResolvedView>,
) -> ValidatedView {
    let documents = parsed_sources(files.sources);
    let before = files.issues + owner_issues(
        owned_paths(files.sources, options.config_dir),
        options,
        found,
    );
    let (config, issues) = validated(parsed_of(documents), parse_issues(before, documents, true));
    ValidatedView {
        config,
        issues,
        dirs: if options.check_paths {
            due(config, issues)
        } else {
            Seq::empty()
        },
    }
}

impl Gathered {
    /// The paths whose ownership has to be examined.
    pub fn paths(&self, options: &LoadOptions) -> (r: Vec<String>)
        ensures
            texts(r@) == owned_paths(self@.sources, options@.config_dir),
    {
        ownership_paths(&self.sources, options.config_dir.as_str())
    }

    /// The second step: from what was found of each of the `paths`.
    pub fn validate(self, options: &LoadOptions, found: &Vec<Resolved>) -> (r: Validated)
        requires
            found@.len() == owned_paths(self@.sources, options@.config_dir).len(),
        ensures
            r@ == validated_of(self@, options@, resolved_views(found@)),
    {
        let paths = self.paths(options);
        assert(texts(paths@).len() == paths@.len());
        let Gathered { sources, mut issues } = self;
        judge_owners(&paths, options, found, &mut issues);
        let config = validate(parse_sources(&sources), true, &mut issues);
        let dirs = if options.check_paths {
            due_dirs(&config, &issues)
        } else {
            Vec::new()
        };
        let r = Validated { config, issues, dirs };
        assert(r@ =~= validated_of(self@, options@, resolved_views(found@)));
        r
    }
}

/// A validated configuration, what is wrong with it, and the directories that
/// have to be looked for.
#[derive(Debug)]
pub struct Validated {
    config: Config,
    issues: Vec<Issue>,
    dirs: Vec<NamedDir>,
}

impl View for Validated {
    type V = ValidatedView;

    closed spec fn view(&self) -> ValidatedView {
        ValidatedView {
            config: self.config@,
            issues: issue_views(self.issues@),
            dirs: dir_views(self.dirs@),
        }
    }
}

impl Validated {
    /// The directories that have to be looked for.
    pub fn dirs(&self) -> (r: &Vec<NamedDir>)
        ensures
            dir_views(r@) == self@.dirs,
    {
        &self.dirs
    }

    /// The last step: from what came of looking for each of the `dirs`. The
    /// configuration, and everything that is wrong with it.
    pub fn finish(self, found: &Vec<DirOutcome>) -> (r: (Config, Vec<Issue>))
        requires
            found@.len() == self@.dirs.len(),
        ensures
            r.0@ == self@.config,
            issue_views(r.1@) == self@.issues + look_issues(self@.dirs, found@),
    {
        assert(dir_views(self.dirs@).len() == self.dirs@.len());
        let Validated { config, mut issues, dirs } = self;
        judge_dirs(&dirs, found, &mut issues);
        (config, issues)
    }

    /// The last step, all or nothing: the configuration with its warnings, unless
    /// something is wrong.
    pub fn load(self, found: &Vec<DirOutcome>) -> (r: Result<Loaded, LoadError>)
        requires
            found@.len() == self@.dirs.len(),
        ensures
            ({
                let issues = self@.issues + look_issues(self@.dirs, found@);
                match r {
                    Ok(loaded) => !has_error(issues) && loaded.config@ == self@.config
                        && issue_views(loaded.warnings@) == issues,
                    Err(e) => has_error(issues) && issue_views(e.issues@) == issues,
                }
            }),
    {
        let (config, issues) = self.finish(found);
        settle(config, issues)
    }
}

} // verus!
