//! Absolute paths.
use vstd::prelude::*;
use vstd::string::*;

use crate::name::{valid_name, Name};
use crate::order::{is_text_before, lemma_lex_strict_order, lemma_text_order, lex, strict_order, text_before, Key};
use crate::text::{chars_of, contains_char, split, split_text, text_between, texts};

verus! {

/// A validated absolute path: begins with `/`, contains no empty, `.` or `..`
/// components, no NUL, and has no trailing `/` (except the root itself).
#[derive(Debug, PartialEq, Eq, Hash)]
pub struct AbsPath(String);

/// Why a path was rejected by [`AbsPath::new`].
#[derive(Debug, PartialEq, Eq)]
pub enum AbsPathError {
    /// The path does not begin with `/`.
    NotAbsolute,
    /// The path contains `//` (or ends in more than one `/`).
    EmptyComponent,
    /// The path contains a `.` or `..` component.
    DotComponent(String),
    /// The path contains a NUL byte.
    Nul,
}

/// What a path error says.
#[verifier::ext_equal]
pub enum AbsPathErrorView {
    /// The path does not begin with `/`.
    NotAbsolute,
    /// The path contains an empty component.
    EmptyComponent,
    /// The path contains a `.` or `..` component.
    DotComponent(Seq<char>),
    /// The path contains a NUL byte.
    Nul,
}

impl View for AbsPathError {
    type V = AbsPathErrorView;

    open spec fn view(&self) -> AbsPathErrorView {
        match self {
            AbsPathError::NotAbsolute => AbsPathErrorView::NotAbsolute,
            AbsPathError::EmptyComponent => AbsPathErrorView::EmptyComponent,
            AbsPathError::DotComponent(s) => AbsPathErrorView::DotComponent(s@),
            AbsPathError::Nul => AbsPathErrorView::Nul,
        }
    }
}

impl AbsPathErrorView {
    /// The text of the error.
    pub open spec fn text(self) -> Seq<char> {
        match self {
            AbsPathErrorView::NotAbsolute => "path must be absolute"@,
            AbsPathErrorView::EmptyComponent => "path contains an empty component"@,
            AbsPathErrorView::DotComponent(s) => "path contains a '"@ + s + "' component"@,
            AbsPathErrorView::Nul => "path contains a NUL byte"@,
        }
    }
}

impl AbsPathError {
    /// Describes the error.
    pub fn message(&self) -> (r: String)
        ensures
            r@ == self@.text(),
    {
        let mut out = String::new();
        match self {
            AbsPathError::NotAbsolute => out.append("path must be absolute"),
            AbsPathError::EmptyComponent => out.append("path contains an empty component"),
            AbsPathError::DotComponent(s) => {
                out.append("path contains a '");
                out.append(s.as_str());
                out.append("' component");
            },
            AbsPathError::Nul => out.append("path contains a NUL byte"),
        }
        assert(out@ =~= self@.text());
        out
    }
}

/// The components of an absolute path; the root has none.
pub open spec fn components(path: Seq<char>) -> Seq<Seq<char>> {
    if path.len() <= 1 {
        Seq::empty()
    } else {
        split(path.drop_first(), '/')
    }
}

/// The text without one trailing `/`.
pub open spec fn without_trailing_slash(s: Seq<char>) -> Seq<char> {
    if s.len() > 0 && s.last() == '/' {
        s.drop_last()
    } else {
        s
    }
}

/// What is wrong with the first bad component, if any is.
pub open spec fn component_error(parts: Seq<Seq<char>>) -> Option<AbsPathErrorView>
    decreases parts.len(),
{
    if parts.len() == 0 {
        None
    } else {
        match component_error(parts.drop_last()) {
            Some(e) => Some(e),
            None => if parts.last().len() == 0 {
                Some(AbsPathErrorView::EmptyComponent)
            } else if parts.last() == seq!['.'] || parts.last() == seq!['.', '.'] {
                Some(AbsPathErrorView::DotComponent(parts.last()))
            } else {
                None
            },
        }
    }
}

/// What validating text as an absolute path gives. A single trailing `/` is
/// removed.
pub open spec fn check_path(raw: Seq<char>) -> Result<Seq<char>, AbsPathErrorView> {
    if raw.contains('\0') {
        Err(AbsPathErrorView::Nul)
    } else if raw.len() == 0 || raw[0] != '/' {
        Err(AbsPathErrorView::NotAbsolute)
    } else if raw.len() == 1 {
        Ok(seq!['/'])
    } else {
        let rest = without_trailing_slash(raw.drop_first());
        match component_error(split(rest, '/')) {
            Some(e) => Err(e),
            None => Ok(seq!['/'] + rest),
        }
    }
}

/// A valid absolute path.
pub open spec fn valid_path(s: Seq<char>) -> bool {
    check_path(s) == Ok::<Seq<char>, AbsPathErrorView>(s)
}

proof fn lemma_component_error_first(parts: Seq<Seq<char>>, n: int)
    requires
        0 <= n <= parts.len(),
        component_error(parts.take(n)) is Some,
    ensures
        component_error(parts) == component_error(parts.take(n)),
    decreases parts.len() - n,
{
    if n < parts.len() {
        assert(parts.take(n + 1).drop_last() =~= parts.take(n));
        lemma_component_error_first(parts, n + 1);
    } else {
        assert(parts.take(n) =~= parts);
    }
}

/// Parts without an error are neither empty nor `.` nor `..`.
pub proof fn lemma_component_error_none(parts: Seq<Seq<char>>)
    requires
        component_error(parts) is None,
    ensures
        forall|i: int|
            0 <= i < parts.len() ==> (#[trigger] parts[i]).len() > 0 && parts[i] != seq!['.']
                && parts[i] != seq!['.', '.'],
    decreases parts.len(),
{
    if parts.len() > 0 {
        lemma_component_error_none(parts.drop_last());
        assert forall|i: int| 0 <= i < parts.len() implies (#[trigger] parts[i]).len() > 0
            && parts[i] != seq!['.'] && parts[i] != seq!['.', '.'] by {
            if i < parts.len() - 1 {
                assert(parts.drop_last()[i] == parts[i]);
            }
        }
    }
}

/// What is accepted is a valid path.
pub proof fn lemma_check_path_valid(raw: Seq<char>)
    ensures
        check_path(raw) matches Ok(p) ==> valid_path(p) && p.len() > 0 && p[0] == '/',
{
    if check_path(raw) is Ok {
        let p = check_path(raw)->Ok_0;
        if raw.len() == 1 {
            assert(p =~= seq!['/']);
            assert(!p.contains('\0')) by {
                if p.contains('\0') {
                    let k = choose|k: int| 0 <= k < p.len() && p[k] == '\0';
                }
            }
        } else {
            let rest = without_trailing_slash(raw.drop_first());
            let parts = split(rest, '/');
            lemma_component_error_none(parts);
            crate::text::lemma_split_nonempty(rest, '/');
            assert(p == seq!['/'] + rest);
            if rest.len() == 0 {
                assert(parts[0].len() == 0) by {
                    assert(split(rest, '/') =~= seq![Seq::<char>::empty()]);
                }
            }
            if rest.last() == '/' {
                // The last part would be empty.
                assert(split(rest, '/').last() == Seq::<char>::empty());
                assert(parts[parts.len() - 1].len() == 0);
            }
            assert(p.drop_first() =~= rest);
            assert(without_trailing_slash(p.drop_first()) == rest);
            assert(!p.contains('\0')) by {
                if p.contains('\0') {
                    let k = choose|k: int| 0 <= k < p.len() && p[k] == '\0';
                    assert(raw[k] == '\0');
                }
            }
        }
    }
}

/// The path of an entry of a directory.
pub open spec fn entry_path(dir: Seq<char>, name: Seq<char>) -> Seq<char> {
    if dir.len() <= 1 {
        dir + name
    } else {
        dir + seq!['/'] + name
    }
}

/// The path of an entry of a directory is a valid path beneath the directory.
pub proof fn lemma_entry_path(dir: Seq<char>, name: Seq<char>)
    requires
        valid_path(dir),
        valid_name(name),
    ensures
        valid_path(entry_path(dir, name)),
        components(entry_path(dir, name)) == components(dir).push(name),
{
    crate::name::lemma_valid_name_passes(name);
    let p = entry_path(dir, name);
    let rest = p.drop_first();
    let start = dir.drop_first();
    crate::text::lemma_split_single(name, '/');
    assert(name.len() > 0);
    assert(p.last() == name.last());
    assert(name[name.len() - 1] != '/') by {
        assert(crate::name::allowed_char(name[name.len() - 1]));
    }
    assert(!p.contains('\0')) by {
        if p.contains('\0') {
            let k = choose|k: int| 0 <= k < p.len() && p[k] == '\0';
            if k < dir.len() {
                assert(dir[k] == '\0');
            } else if p.len() - k <= name.len() {
                let j = k - (p.len() - name.len());
                assert(name[j] == p[k]);
                assert(crate::name::allowed_char(name[j]));
            }
        }
    }
    assert(seq!['/'] + rest =~= p);
    assert(rest.last() == name.last());
    if dir.len() == 1 {
        assert(rest =~= name);
        let parts = seq![name];
        assert(parts.drop_last() =~= Seq::empty());
        assert(component_error(parts.drop_last()) is None);
        assert(component_error(parts) is None);
        assert(components(dir).push(name) =~= parts);
    } else {
        assert(rest =~= start + seq!['/'] + name);
        crate::text::lemma_split_concat(start, '/', name);
        let parts = split(start, '/').push(name);
        assert(split(start, '/') + seq![name] =~= parts);
        assert(parts.drop_last() =~= split(start, '/'));
        assert(without_trailing_slash(start) == start) by {
            if start.last() == '/' {
                assert(seq!['/'] + start.drop_last() == dir);
                assert((seq!['/'] + start.drop_last()).len() == dir.len() - 1);
            }
        }
        assert(component_error(split(start, '/')) is None);
        assert(component_error(parts) is None);
    }
}

impl View for AbsPath {
    type V = Seq<char>;

    closed spec fn view(&self) -> Seq<char> {
        self.0@
    }
}

impl Clone for AbsPath {
    fn clone(&self) -> (r: Self)
        ensures
            r@ == self@,
    {
        proof {
            use_type_invariant(self);
        }
        AbsPath(self.0.clone())
    }
}

/// The order of paths: component by component.
pub open spec fn path_before(a: Seq<char>, b: Seq<char>) -> bool {
    lex(|x: Seq<char>, y: Seq<char>| text_before(x, y), split(a, '/'), split(b, '/'))
}

/// The order of paths is a strict total order.
pub proof fn lemma_path_order()
    ensures
        strict_order(|a: Seq<char>, b: Seq<char>| path_before(a, b)),
{
    lemma_text_order();
    let text = |x: Seq<char>, y: Seq<char>| text_before(x, y);
    lemma_lex_strict_order(text);
    let parts = |x: Seq<Seq<char>>, y: Seq<Seq<char>>| lex(text, x, y);
    let f = |a: Seq<char>, b: Seq<char>| path_before(a, b);
    assert forall|a: Seq<char>| !#[trigger] f(a, a) by {
        assert(!parts(split(a, '/'), split(a, '/')));
    }
    assert forall|a: Seq<char>, b: Seq<char>, c: Seq<char>| #[trigger] f(a, b) && #[trigger] f(
        b,
        c,
    ) implies f(a, c) by {
        assert(parts(split(a, '/'), split(b, '/')));
        assert(parts(split(b, '/'), split(c, '/')));
    }
    assert forall|a: Seq<char>, b: Seq<char>| #[trigger] f(a, b) || a == b || f(b, a) by {
        assert(parts(split(a, '/'), split(b, '/')) || split(a, '/') == split(b, '/') || parts(
            split(b, '/'),
            split(a, '/'),
        ));
        crate::text::lemma_join_split(a, '/');
        crate::text::lemma_join_split(b, '/');
    }
}

fn is_list_before(a: &Vec<String>, b: &Vec<String>) -> (r: bool)
    ensures
        r == lex(|x: Seq<char>, y: Seq<char>| text_before(x, y), texts(a@), texts(b@)),
{
    let ghost lt = |x: Seq<char>, y: Seq<char>| text_before(x, y);
    let ghost va = texts(a@);
    let ghost vb = texts(b@);
    let mut i: usize = 0;
    assert(va.skip(0) =~= va && vb.skip(0) =~= vb);
    while i < a.len() && i < b.len()
        invariant
            i <= a@.len(),
            i <= b@.len(),
            lt == (|x: Seq<char>, y: Seq<char>| text_before(x, y)),
            va == texts(a@),
            vb == texts(b@),
            lex(lt, va, vb) == lex(lt, va.skip(i as int), vb.skip(i as int)),
        decreases a@.len() - i,
    {
        assert(va.skip(i as int)[0] == a@[i as int]@);
        assert(vb.skip(i as int)[0] == b@[i as int]@);
        if !crate::text::same(a[i].as_str(), b[i].as_str()) {
            return is_text_before(a[i].as_str(), b[i].as_str());
        }
        assert(va.skip(i as int).drop_first() =~= va.skip(i + 1));
        assert(vb.skip(i as int).drop_first() =~= vb.skip(i + 1));
        i += 1;
    }
    a.len() < b.len()
}

impl Key for AbsPath {
    open spec fn before(a: Seq<char>, b: Seq<char>) -> bool {
        path_before(a, b)
    }

    proof fn lemma_key_order() {
        lemma_path_order();
        let f = |a: Seq<char>, b: Seq<char>| path_before(a, b);
        let g = |a: Seq<char>, b: Seq<char>| Self::before(a, b);
        assert(f =~= g);
    }

    fn is_before(&self, other: &Self) -> (r: bool) {
        let r = is_list_before(
            &split_text(self.0.as_str(), '/'),
            &split_text(other.0.as_str(), '/'),
        );
        assert(AbsPath::before(self@, other@) == path_before(self@, other@));
        r
    }
}

impl AbsPath {
    #[verifier::type_invariant]
    pub open spec fn valid(&self) -> bool {
        valid_path(self@)
    }

    /// Validates an absolute path. A single trailing `/` is removed.
    pub fn new(raw: &str) -> (r: Result<Self, AbsPathError>)
        ensures
            match r {
                Ok(p) => check_path(raw@) == Ok::<Seq<char>, AbsPathErrorView>(p@),
                Err(e) => check_path(raw@) == Err::<Seq<char>, AbsPathErrorView>(e@),
            },
    {
        let v = chars_of(raw);
        proof {
            lemma_check_path_valid(raw@);
        }
        if contains_char(&v, '\0') {
            return Err(AbsPathError::Nul);
        }
        if v.len() == 0 || v[0] != '/' {
            return Err(AbsPathError::NotAbsolute);
        }
        if v.len() == 1 {
            let mut root = String::new();
            root.push('/');
            assert(root@ =~= seq!['/']);
            return Ok(AbsPath(root));
        }
        let end: usize = if v[v.len() - 1] == '/' { v.len() - 1 } else { v.len() };
        let rest = text_between(&v, 1, end);
        proof {
            let tail = raw@.drop_first();
            assert(tail.last() == raw@.last());
            assert(rest@ =~= without_trailing_slash(tail));
        }
        let parts = split_text(rest.as_str(), '/');
        let ghost views = split(rest@, '/');
        let mut i: usize = 0;
        while i < parts.len()
            invariant
                i <= parts@.len(),
                views == texts(parts@),
                views == split(rest@, '/'),
                component_error(views.take(i as int)) is None,
                check_path(raw@) == match component_error(views) {
                    Some(e) => Err::<Seq<char>, AbsPathErrorView>(e),
                    None => Ok::<Seq<char>, AbsPathErrorView>(seq!['/'] + rest@),
                },
            decreases parts@.len() - i,
        {
            let part = parts[i].as_str();
            proof {
                assert(views.take(i + 1).drop_last() =~= views.take(i as int));
                assert(views.take(i + 1).last() == part@);
                reveal_strlit(".");
                reveal_strlit("..");
                assert("."@ =~= seq!['.']);
                assert(".."@ =~= seq!['.', '.']);
                if component_error(views.take(i + 1)) is Some {
                    lemma_component_error_first(views, i + 1);
                }
            }
            if part.is_empty() {
                return Err(AbsPathError::EmptyComponent);
            }
            if crate::text::same(part, ".") || crate::text::same(part, "..") {
                return Err(AbsPathError::DotComponent(part.to_owned()));
            }
            i += 1;
        }
        assert(views.take(views.len() as int) =~= views);
        let mut path = String::new();
        path.push('/');
        path.append(rest.as_str());
        assert(path@ =~= seq!['/'] + rest@);
        Ok(AbsPath(path))
    }

    /// Returns the path.
    pub fn as_path(&self) -> (r: &str)
        ensures
            r@ == self@,
    {
        self.0.as_str()
    }

    /// The path of an entry of this directory.
    pub fn join(&self, name: &Name) -> (r: Self)
        ensures
            r@ == entry_path(self@, name@),
    {
        proof {
            use_type_invariant(self);
            use_type_invariant(name);
            lemma_entry_path(self@, name@);
        }
        let mut out = self.0.clone();
        if !self.is_root() {
            out.push('/');
        }
        out.append(name.as_str());
        assert(out@ =~= entry_path(self@, name@));
        AbsPath(out)
    }

    /// Whether two paths are the same.
    pub fn same(&self, other: &Self) -> (r: bool)
        ensures
            r == (self@ == other@),
    {
        crate::text::same(self.0.as_str(), other.0.as_str())
    }

    /// Whether this is the root directory.
    pub fn is_root(&self) -> (r: bool)
        ensures
            r == (self@ == seq!['/']),
    {
        proof {
            reveal_strlit("/");
            assert("/"@ =~= seq!['/']);
        }
        crate::text::same(self.0.as_str(), "/")
    }

    /// Whether `self` equals `other` or lies beneath it, compared by
    /// components.
    pub fn is_at_or_beneath(&self, other: &Self) -> (r: bool)
        ensures
            r == components(other@).is_prefix_of(components(self@)),
    {
        let mine = path_components(self.0.as_str());
        let theirs = path_components(other.0.as_str());
        let ghost a = components(self@);
        let ghost b = components(other@);
        if theirs.len() > mine.len() {
            return false;
        }
        let mut i: usize = 0;
        while i < theirs.len()
            invariant
                i <= theirs@.len() <= mine@.len(),
                a == components(self@),
                b == components(other@),
                texts(mine@) == a,
                texts(theirs@) == b,
                forall|k: int| 0 <= k < i ==> #[trigger] a[k] == b[k],
            decreases theirs@.len() - i,
        {
            assert(a[i as int] == mine@[i as int]@);
            assert(b[i as int] == theirs@[i as int]@);
            if !crate::text::same(mine[i].as_str(), theirs[i].as_str()) {
                assert(!b.is_prefix_of(a)) by {
                    if b.is_prefix_of(a) {
                        assert(a.take(b.len() as int)[i as int] == a[i as int]);
                    }
                }
                return false;
            }
            i += 1;
        }
        assert(b =~= a.take(b.len() as int));
        true
    }
}

/// The components of an absolute path.
fn path_components(path: &str) -> (r: Vec<String>)
    ensures
        texts(r@) == components(path@),
{
    let v = chars_of(path);
    if v.len() <= 1 {
        let r: Vec<String> = Vec::new();
        assert(texts(r@) =~= Seq::<Seq<char>>::empty());
        return r;
    }
    let rest = text_between(&v, 1, v.len());
    assert(rest@ =~= path@.drop_first());
    split_text(rest.as_str(), '/')
}

/// A path is at or beneath itself, and what lies beneath what lies beneath a
/// path lies beneath it.
pub proof fn law_beneath_is_transitive(a: Seq<char>, b: Seq<char>, c: Seq<char>)
    requires
        components(b).is_prefix_of(components(a)),
        components(c).is_prefix_of(components(b)),
    ensures
        components(c).is_prefix_of(components(a)),
        components(a).is_prefix_of(components(a)),
{
    let x = components(a);
    let z = components(c);
    assert(z =~= x.take(z.len() as int));
    assert(x =~= x.take(x.len() as int));
}

/// A path is accepted exactly if it is absolute, holds no NUL and has no
/// empty, `.` or `..` component; one slash behind it does not count. What is
/// accepted is the path itself, without that slash.
pub proof fn law_accepted_paths_are_clean(raw: Seq<char>, kept: Seq<char>)
    requires
        kept == (if raw.len() > 1 && raw[raw.len() - 1] == '/' {
            raw.take(raw.len() - 1)
        } else {
            raw
        }),
    ensures
        check_path(raw) matches Ok(path) ==> path == kept,
        check_path(raw) is Ok <==> {
            &&& raw.len() > 0
            &&& raw[0] == '/'
            &&& !raw.contains('\0')
            &&& raw == seq!['/'] || forall|i: int|
                0 <= i < split(kept.skip(1), '/').len() ==> {
                    let part = #[trigger] split(kept.skip(1), '/')[i];
                    part.len() > 0 && part != seq!['.'] && part != seq!['.', '.']
                }
        },
{
    if raw.len() == 1 && raw[0] == '/' {
        assert(raw =~= seq!['/']);
    }
    if raw.len() > 1 && raw[0] == '/' {
        let tail = raw.drop_first();
        assert(tail.last() == raw[raw.len() - 1]);
        let rest = without_trailing_slash(tail);
        assert(rest =~= kept.skip(1));
        assert(seq!['/'] + rest =~= kept);
        lemma_no_component_error(split(rest, '/'));
    }
}

proof fn lemma_no_component_error(parts: Seq<Seq<char>>)
    ensures
        component_error(parts) is None <==> forall|i: int|
            0 <= i < parts.len() ==> {
                let part = #[trigger] parts[i];
                part.len() > 0 && part != seq!['.'] && part != seq!['.', '.']
            },
    decreases parts.len(),
{
    if parts.len() > 0 {
        let front = parts.drop_last();
        lemma_no_component_error(front);
        assert(parts[parts.len() - 1] == parts.last());
        assert(forall|i: int| 0 <= i < front.len() ==> #[trigger] front[i] == parts[i]);
        if forall|i: int|
            0 <= i < front.len() ==> {
                let part = #[trigger] front[i];
                part.len() > 0 && part != seq!['.'] && part != seq!['.', '.']
            } {
            assert forall|i: int| 0 <= i < parts.len() - 1 implies {
                let part = #[trigger] parts[i];
                part.len() > 0 && part != seq!['.'] && part != seq!['.', '.']
            } by {
                assert(front[i] == parts[i]);
            }
        } else {
            let i = choose|i: int|
                0 <= i < front.len() && !{
                    let part = #[trigger] front[i];
                    part.len() > 0 && part != seq!['.'] && part != seq!['.', '.']
                };
            assert(parts[i] == front[i]);
        }
    }
}

/// What is appended to a path with a slash between is beneath the path; a
/// path that only begins with the same characters is not.
pub proof fn law_appended_paths_are_beneath(path: Seq<char>, more: Seq<char>)
    requires
        path.len() > 1,
    ensures
        components(path).is_prefix_of(components(path + seq!['/'] + more)),
        more.len() > 0 && !more.contains('/') && path[path.len() - 1] != '/'
            ==> !components(path).is_prefix_of(components(path + more)),
        components(seq!['/']).is_prefix_of(components(path)),
{
    let rest = path.drop_first();
    assert((path + seq!['/'] + more).drop_first() =~= rest + seq!['/'] + more);
    crate::text::lemma_split_concat(rest, '/', more);
    let a = components(path);
    let b = components(path + seq!['/'] + more);
    assert(b.take(a.len() as int) =~= a);
    assert(components(seq!['/']) =~= a.take(0));
    if more.len() > 0 && !more.contains('/') && path[path.len() - 1] != '/' {
        let c = components(path + more);
        assert((path + more).drop_first() =~= rest + more);
        lemma_split_extended(rest, more);
        assert(c[a.len() - 1] != a[a.len() - 1]);
        if a.is_prefix_of(c) {
            assert(c.take(a.len() as int)[a.len() - 1] == c[a.len() - 1]);
        }
    }
}

proof fn lemma_split_extended(s: Seq<char>, more: Seq<char>)
    requires
        !more.contains('/'),
    ensures
        split(s, '/').len() >= 1,
        split(s + more, '/').len() == split(s, '/').len(),
        split(s + more, '/').last() == split(s, '/').last() + more,
    decreases more.len(),
{
    crate::text::lemma_split_nonempty(s, '/');
    if more.len() == 0 {
        assert(s + more =~= s);
        assert(split(s, '/').last() + more =~= split(s, '/').last());
    } else {
        let front = more.drop_last();
        assert forall|k: int| 0 <= k < front.len() implies front[k] != '/' by {
            assert(more[k] != '/');
        }
        lemma_split_extended(s, front);
        assert((s + more).drop_last() =~= s + front);
        assert((s + more).last() == more.last());
        assert(more[more.len() - 1] != '/');
        assert((split(s, '/').last() + front).push(more.last()) =~= split(s, '/').last() + more);
    }
}

/// An entry of a directory has the components of the directory and its own name
/// behind them.
pub proof fn law_entries_are_beneath_their_directory(dir: Seq<char>, name: Seq<char>)
    requires
        dir.len() > 0,
        dir[0] == '/',
        name.len() > 0,
        !name.contains('/'),
    ensures
        components(entry_path(dir, name)) == components(dir).push(name),
{
    let all = entry_path(dir, name);
    crate::text::lemma_split_single(name, '/');
    if dir.len() <= 1 {
        assert(all.drop_first() =~= name);
        assert(components(all) =~= components(dir).push(name));
    } else {
        let rest = dir.drop_first();
        assert(all.drop_first() =~= rest + seq!['/'] + name);
        crate::text::lemma_split_concat(rest, '/', name);
        assert(components(all) =~= components(dir).push(name));
    }
}

} // verus!
