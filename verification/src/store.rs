//! Where the state file is, and what loading it comes to.
use vstd::prelude::*;
use vstd::string::*;

use crate::document::{decoded, DecodeError, DecodeErrorView};
use crate::state::{KeyView, RecordView, State};
use crate::timestamp::{instant_formatted, Timestamp};

verus! {

/// State file name within the state directory.
pub const STATE_FILE_NAME: &'static str = "state.json";

/// Name of the file that is written first, within the state directory.
pub const TEMPORARY_FILE_NAME: &'static str = "state.json.tmp";

/// What a file that was set aside is called, before the time.
pub const ASIDE_PREFIX: &'static str = "state.json.corrupt-";

/// The time in the name of a file that was set aside.
pub const ASIDE_FORMAT: &'static str = "%Y%m%dT%H%M%S%.fZ";

/// Result of loading the state file.
#[derive(Debug, PartialEq, Eq)]
pub enum LoadOutcome {
    /// The state file was read successfully.
    Loaded(State),
    /// There is no state file.
    Missing,
    /// The state file was unreadable as state. When loaded for writing, it has
    /// been renamed aside to `preserved_as`.
    Corrupt {
        /// Why it could not be decoded.
        reason: String,
        /// Where the corrupt file was moved, if it was.
        preserved_as: Option<String>,
    },
}

/// What an outcome stands for.
#[verifier::ext_equal]
pub enum LoadOutcomeView {
    /// The state that was read.
    Loaded(Map<KeyView, RecordView>),
    /// There is no state file.
    Missing,
    /// The state file is corrupt.
    Corrupt {
        /// Why it could not be decoded.
        reason: Seq<char>,
        /// Where the corrupt file was moved, if it was.
        preserved_as: Option<Seq<char>>,
    },
}

impl View for LoadOutcome {
    type V = LoadOutcomeView;

    open spec fn view(&self) -> LoadOutcomeView {
        match self {
            LoadOutcome::Loaded(state) => LoadOutcomeView::Loaded(state@),
            LoadOutcome::Missing => LoadOutcomeView::Missing,
            LoadOutcome::Corrupt { reason, preserved_as } => LoadOutcomeView::Corrupt {
                reason: reason@,
                preserved_as: match preserved_as {
                    Some(path) => Some(path@),
                    None => None,
                },
            },
        }
    }
}

impl LoadOutcome {
    /// The loaded state, or empty state if missing or corrupt.
    pub fn into_state(self) -> (r: State)
        ensures
            r@ == (match self@ {
                LoadOutcomeView::Loaded(state) => state,
                _ => Map::empty(),
            }),
    {
        match self {
            LoadOutcome::Loaded(state) => state,
            LoadOutcome::Missing => State::default(),
            LoadOutcome::Corrupt { .. } => State::default(),
        }
    }
}

/// An I/O error.
#[derive(Debug, PartialEq, Eq)]
pub struct IoError {
    /// The error as text.
    pub text: String,
    /// Whether access was denied.
    pub denied: bool,
}

/// What an I/O error stands for.
#[verifier::ext_equal]
pub struct IoErrorView {
    /// The error as text.
    pub text: Seq<char>,
    /// Whether access was denied.
    pub denied: bool,
}

impl View for IoError {
    type V = IoErrorView;

    open spec fn view(&self) -> IoErrorView {
        IoErrorView { text: self.text@, denied: self.denied }
    }
}

/// Why the state file could not be loaded at all.
#[derive(Debug, PartialEq, Eq)]
#[allow(inconsistent_fields)]
pub enum LoadError {
    /// The file declares an unsupported version; it is never overwritten.
    UnsupportedVersion {
        /// State file path.
        path: String,
        /// The decode error.
        source: DecodeError,
    },
    /// An I/O error other than the file not existing.
    Io {
        /// Path involved.
        path: String,
        /// The I/O error.
        error: IoError,
    },
}

/// What a load error stands for.
#[verifier::ext_equal]
#[allow(inconsistent_fields)]
pub enum LoadErrorView {
    /// The file declares an unsupported version.
    UnsupportedVersion {
        /// State file path.
        path: Seq<char>,
        /// The decode error.
        source: DecodeErrorView,
    },
    /// An I/O error.
    Io {
        /// Path involved.
        path: Seq<char>,
        /// The I/O error.
        error: IoErrorView,
    },
}

impl View for LoadError {
    type V = LoadErrorView;

    open spec fn view(&self) -> LoadErrorView {
        match self {
            LoadError::UnsupportedVersion { path, source } => LoadErrorView::UnsupportedVersion {
                path: path@,
                source: source@,
            },
            LoadError::Io { path, error } => LoadErrorView::Io { path: path@, error: error@ },
        }
    }
}

impl LoadErrorView {
    /// The error as text.
    pub open spec fn text(self) -> Seq<char> {
        match self {
            LoadErrorView::UnsupportedVersion { path, source } => path + ": "@ + source.text(),
            LoadErrorView::Io { path, error } => path + ": "@ + error.text,
        }
    }
}

impl LoadError {
    /// Describes the error.
    pub fn message(&self) -> (r: String)
        ensures
            r@ == self@.text(),
    {
        let mut out = String::new();
        match self {
            LoadError::UnsupportedVersion { path, source } => {
                out.append(path.as_str());
                out.append(": ");
                out.append(source.message().as_str());
            },
            LoadError::Io { path, error } => {
                out.append(path.as_str());
                out.append(": ");
                out.append(error.text.as_str());
            },
        }
        assert(out@ =~= self@.text());
        out
    }
}

/// What came of reading the state file.
#[derive(Debug)]
pub enum FileRead {
    /// Its content.
    Content(Vec<u8>),
    /// There is no such file.
    Missing,
    /// It could not be read.
    Failed(IoError),
}

/// What is to be done once the state file was read.
#[derive(Debug)]
pub enum LoadStep {
    /// Nothing; this came of it.
    Done(Result<LoadOutcome, LoadError>),
    /// The file has to be renamed.
    SetAside {
        /// Why it could not be decoded.
        reason: String,
        /// The path it is renamed to.
        aside: String,
    },
}

/// What a step stands for.
#[verifier::ext_equal]
pub enum LoadStepView {
    /// Nothing is to be done.
    Done(Result<LoadOutcomeView, LoadErrorView>),
    /// The file has to be renamed.
    SetAside {
        /// Why it could not be decoded.
        reason: Seq<char>,
        /// The path it is renamed to.
        aside: Seq<char>,
    },
}

/// The view of a result of loading.
pub open spec fn loaded_view(r: Result<LoadOutcome, LoadError>) -> Result<
    LoadOutcomeView,
    LoadErrorView,
> {
    match r {
        Ok(outcome) => Ok(outcome@),
        Err(e) => Err(e@),
    }
}

impl View for LoadStep {
    type V = LoadStepView;

    open spec fn view(&self) -> LoadStepView {
        match self {
            LoadStep::Done(r) => LoadStepView::Done(loaded_view(*r)),
            LoadStep::SetAside { reason, aside } => LoadStepView::SetAside {
                reason: reason@,
                aside: aside@,
            },
        }
    }
}

/// The path of a file in a directory.
pub open spec fn joined(dir: Seq<char>, name: Seq<char>) -> Seq<char> {
    if dir.len() == 0 || dir.last() == '/' {
        dir + name
    } else {
        dir + "/"@ + name
    }
}

/// The path of a file in a directory.
pub fn join_path(dir: &str, name: &str) -> (r: String)
    ensures
        r@ == joined(dir@, name@),
{
    let chars = crate::text::chars_of(dir);
    let mut out = String::new();
    out.append(dir);
    if chars.len() > 0 && chars[chars.len() - 1] != '/' {
        out.append("/");
    }
    out.append(name);
    assert(out@ =~= joined(dir@, name@));
    out
}

/// The path that a corrupt file is renamed to.
pub open spec fn aside_path(dir: Seq<char>, now: i128) -> Seq<char> {
    joined(dir, ASIDE_PREFIX@ + instant_formatted(now, ASIDE_FORMAT@)->0)
}

/// What is to be done with the state file in a directory, as `now` says for a
/// writer. A corrupt file is renamed for a writer and stays as it is for
/// anyone else; one of another version always stays as it is.
pub open spec fn load_step(
    dir: Seq<char>,
    path: Seq<char>,
    read: FileRead,
    now: Option<i128>,
) -> LoadStepView {
    match read {
        FileRead::Missing => LoadStepView::Done(Ok(LoadOutcomeView::Missing)),
        FileRead::Failed(error) => LoadStepView::Done(
            Err(LoadErrorView::Io { path, error: error@ }),
        ),
        FileRead::Content(bytes) => match decoded(bytes@) {
            Ok(state) => LoadStepView::Done(Ok(LoadOutcomeView::Loaded(state))),
            Err(DecodeErrorView::UnsupportedVersion(n)) => LoadStepView::Done(
                Err(
                    LoadErrorView::UnsupportedVersion {
                        path,
                        source: DecodeErrorView::UnsupportedVersion(n),
                    },
                ),
            ),
            Err(DecodeErrorView::Malformed(reason)) => match now {
                None => LoadStepView::Done(
                    Ok(LoadOutcomeView::Corrupt { reason, preserved_as: None }),
                ),
                Some(now) => LoadStepView::SetAside { reason, aside: aside_path(dir, now) },
            },
        },
    }
}

/// Reads and writes the state file in a state directory.
#[derive(Debug)]
pub struct StateStore {
    dir: String,
}

impl View for StateStore {
    type V = Seq<char>;

    closed spec fn view(&self) -> Seq<char> {
        self.dir@
    }
}

impl Clone for StateStore {
    fn clone(&self) -> (r: Self)
        ensures
            r@ == self@,
    {
        StateStore { dir: self.dir.clone() }
    }
}

impl StateStore {
    /// A store for the given state directory.
    pub fn new(dir: &str) -> (r: Self)
        ensures
            r@ == dir@,
    {
        StateStore { dir: dir.to_owned() }
    }

    /// Path of the state file.
    pub fn path(&self) -> (r: String)
        ensures
            r@ == joined(self@, STATE_FILE_NAME@),
    {
        join_path(self.dir.as_str(), STATE_FILE_NAME)
    }

    /// Path of the file that is written first and renamed over the state file.
    pub fn temporary_path(&self) -> (r: String)
        ensures
            r@ == joined(self@, TEMPORARY_FILE_NAME@),
    {
        join_path(self.dir.as_str(), TEMPORARY_FILE_NAME)
    }

    /// What is to be done once the state file was read, without modifying
    /// anything on disk (for read-only commands).
    pub fn load_read_only(&self, read: FileRead) -> (r: Result<LoadOutcome, LoadError>)
        ensures
            LoadStepView::Done(loaded_view(r)) == load_step(
                self@,
                joined(self@, STATE_FILE_NAME@),
                read,
                None,
            ),
    {
        match self.load_inner(read, None) {
            LoadStep::Done(r) => r,
            LoadStep::SetAside { reason, .. } => Ok(
                LoadOutcome::Corrupt { reason, preserved_as: None },
            ),
        }
    }

    /// What is to be done once the state file was read for a writer. A corrupt
    /// file is renamed aside to `state.json.corrupt-<timestamp>` so it is
    /// preserved for the operator.
    pub fn load_for_write(&self, read: FileRead, now: &Timestamp) -> (r: LoadStep)
        ensures
            r@ == load_step(self@, joined(self@, STATE_FILE_NAME@), read, Some(now@)),
    {
        self.load_inner(read, Some(now))
    }

    fn load_inner(&self, read: FileRead, now: Option<&Timestamp>) -> (r: LoadStep)
        ensures
            r@ == load_step(
                self@,
                joined(self@, STATE_FILE_NAME@),
                read,
                match now {
                    Some(t) => Some(t@),
                    None => None,
                },
            ),
    {
        match read {
            FileRead::Missing => LoadStep::Done(Ok(LoadOutcome::Missing)),
            FileRead::Failed(error) => LoadStep::Done(
                Err(LoadError::Io { path: self.path(), error }),
            ),
            FileRead::Content(bytes) => match State::decode(bytes.as_slice()) {
                Ok(state) => LoadStep::Done(Ok(LoadOutcome::Loaded(state))),
                Err(DecodeError::UnsupportedVersion(n)) => LoadStep::Done(
                    Err(
                        LoadError::UnsupportedVersion {
                            path: self.path(),
                            source: DecodeError::UnsupportedVersion(n),
                        },
                    ),
                ),
                Err(DecodeError::Malformed(reason)) => match now {
                    None => LoadStep::Done(
                        Ok(LoadOutcome::Corrupt { reason, preserved_as: None }),
                    ),
                    Some(now) => {
                        let mut name = ASIDE_PREFIX.to_owned();
                        name.append(now.formatted(ASIDE_FORMAT).as_str());
                        LoadStep::SetAside {
                            reason,
                            aside: join_path(self.dir.as_str(), name.as_str()),
                        }
                    },
                },
            },
        }
    }

    /// What loading comes to once the corrupt file was renamed, or was not.
    pub fn set_aside(&self, reason: String, aside: String, renamed: Result<(), IoError>) -> (r:
        Result<LoadOutcome, LoadError>)
        ensures
            loaded_view(r) == match renamed {
                Ok(_) => Ok::<LoadOutcomeView, LoadErrorView>(
                    LoadOutcomeView::Corrupt { reason: reason@, preserved_as: Some(aside@) },
                ),
                Err(error) => Err::<LoadOutcomeView, LoadErrorView>(
                    LoadErrorView::Io { path: joined(self@, STATE_FILE_NAME@), error: error@ },
                ),
            },
    {
        match renamed {
            Ok(_) => Ok(LoadOutcome::Corrupt { reason, preserved_as: Some(aside) }),
            Err(error) => Err(LoadError::Io { path: self.path(), error }),
        }
    }
}

/// What was saved is loaded, and a writer that loads it renames nothing.
pub proof fn law_saved_state_is_loaded(
    dir: Seq<char>,
    state: Map<KeyView, RecordView>,
    saved: Vec<u8>,
    now: Option<i128>,
)
    ensures
        decoded(saved@) == Ok::<Map<KeyView, RecordView>, DecodeErrorView>(state) ==> load_step(
            dir,
            joined(dir, STATE_FILE_NAME@),
            FileRead::Content(saved),
            now,
        ) == LoadStepView::Done(Ok(LoadOutcomeView::Loaded(state))),
{
}

/// A file of a version that is not supported is refused, and is neither
/// renamed nor replaced.
pub proof fn law_other_versions_are_untouched(
    dir: Seq<char>,
    path: Seq<char>,
    bytes: Vec<u8>,
    version: u64,
    now: Option<i128>,
)
    ensures
        decoded(bytes@) == Err::<Map<KeyView, RecordView>, DecodeErrorView>(
            DecodeErrorView::UnsupportedVersion(version),
        ) ==> load_step(dir, path, FileRead::Content(bytes), now) == LoadStepView::Done(
            Err(
                LoadErrorView::UnsupportedVersion {
                    path,
                    source: DecodeErrorView::UnsupportedVersion(version),
                },
            ),
        ),
{
}

/// A file of a directory has the directory before it and its own name behind,
/// with one slash between them.
pub proof fn law_files_are_named_in_their_directory(dir: Seq<char>, name: Seq<char>)
    ensures
        joined(dir, name).take(dir.len() as int) == dir,
        joined(dir, name).skip(joined(dir, name).len() - name.len()) == name,
        dir.len() > 0 ==> joined(dir, name)[joined(dir, name).len() - name.len() - 1] == '/',
        dir.len() > 0 && dir.last() == '/' ==> joined(dir, name).len() == dir.len() + name.len(),
        dir.len() > 0 && dir.last() != '/' ==> joined(dir, name).len() == dir.len() + name.len()
            + 1,
        dir.len() == 0 ==> joined(dir, name) == name,
{
    reveal_strlit("/");
    let all = joined(dir, name);
    assert(all.take(dir.len() as int) =~= dir);
    assert(all.skip(all.len() - name.len()) =~= name);
    if dir.len() == 0 {
        assert(all =~= name);
    }
}

/// The state file is renamed exactly if a writer finds that it cannot be
/// decoded, and then into the same directory under a name that tells so. That
/// there is none, or that it cannot be read, is told as such.
pub proof fn law_only_writers_set_files_aside(
    dir: Seq<char>,
    path: Seq<char>,
    read: FileRead,
    now: Option<i128>,
)
    ensures
        ({
            let step = load_step(dir, path, read, now);
            &&& step is SetAside <==> now is Some && (read matches FileRead::Content(bytes)
                && decoded(bytes@) is Err && decoded(bytes@)->Err_0 is Malformed)
            &&& step matches LoadStepView::SetAside { aside, .. } ==> aside == joined(
                dir,
                "state.json.corrupt-"@ + instant_formatted(now->0, "%Y%m%dT%H%M%S%.fZ"@)->0,
            )
            &&& step == LoadStepView::Done(Ok(LoadOutcomeView::Missing)) <==> read is Missing
            &&& read matches FileRead::Failed(error) ==> step == LoadStepView::Done(
                Err(LoadErrorView::Io { path, error: error@ }),
            )
            &&& (step matches LoadStepView::Done(Ok(LoadOutcomeView::Corrupt { preserved_as, .. })))
                ==> now is None
        }),
{
}

/// An error of loading begins with the path it is about.
pub proof fn law_load_errors_name_the_file(e: LoadErrorView)
    ensures
        match e {
            LoadErrorView::UnsupportedVersion { path, source } => e.text().take(path.len() as int)
                == path,
            LoadErrorView::Io { path, error } => e.text().take(path.len() as int) == path
                && e.text().skip(e.text().len() - error.text.len()) == error.text,
        },
{
    match e {
        LoadErrorView::UnsupportedVersion { path, source } => {
            assert(e.text().take(path.len() as int) =~= path);
        },
        LoadErrorView::Io { path, error } => {
            assert(e.text().take(path.len() as int) =~= path);
            assert(e.text().skip(e.text().len() - error.text.len()) =~= error.text);
        },
    }
}

} // verus!
