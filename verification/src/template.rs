//! Relative path templates such as `{name}/workspace`.
//!
//! Rules:
//!
//! - a relative path of non-empty `/`-separated components, none `.` or `..`;
//! - the only placeholder is `{name}`, which must appear at least once and may
//!   appear anywhere within components (templates of a group set may also use
//!   `{group}` and `{subgroup}`);
//! - any other `{` or `}` is an error;
//! - components and the interpolated path must respect `NAME_MAX` and
//!   `PATH_MAX`.
use vstd::prelude::*;
use vstd::string::*;

use crate::name::{name_views, valid_name, Name, MAX_NAME_LEN};
use crate::text::{byte_len, char_width, chars_of, contains_char, decimal, join, join_texts, push_decimal, split, split_text, text_between, texts, width};

verus! {

/// Maximum length in bytes of an interpolated relative path, excluding the
/// terminating NUL (`PATH_MAX` is 4096 including it).
pub const MAX_PATH_LEN: usize = 4095;

/// The placeholder of the member name.
pub open spec fn name_placeholder() -> Seq<char> {
    seq!['{', 'n', 'a', 'm', 'e', '}']
}

/// The placeholder of a group set directory level: `{group}`, then
/// `{subgroup}`.
pub open spec fn level_text(level: nat) -> Seq<char> {
    if level == 0 {
        seq!['{', 'g', 'r', 'o', 'u', 'p', '}']
    } else {
        seq!['{', 's', 'u', 'b', 'g', 'r', 'o', 'u', 'p', '}']
    }
}

/// One piece of a component.
#[derive(Debug, PartialEq, Eq)]
enum Piece {
    Literal(String),
    Name,
    /// A group set directory level: 0 is `{group}`, 1 is `{subgroup}`.
    Level(usize),
}

/// What one piece of a component stands for.
#[verifier::ext_equal]
pub enum PieceView {
    /// Text as it is.
    Literal(Seq<char>),
    /// The member name.
    Name,
    /// A group set directory level: 0 is `{group}`, 1 is `{subgroup}`.
    Level(nat),
}

impl View for Piece {
    type V = PieceView;

    closed spec fn view(&self) -> PieceView {
        match self {
            Piece::Literal(s) => PieceView::Literal(s@),
            Piece::Name => PieceView::Name,
            Piece::Level(level) => PieceView::Level(*level as nat),
        }
    }
}

/// A template: its text, and the pieces of each of its components.
#[verifier::ext_equal]
pub struct TemplateView {
    /// The template as written.
    pub raw: Seq<char>,
    /// The pieces of each component.
    pub components: Seq<Seq<PieceView>>,
}

/// A validated path template.
#[derive(Debug, PartialEq, Eq)]
pub struct Template {
    raw: String,
    components: Vec<Vec<Piece>>,
}

spec fn piece_views(pieces: Seq<Piece>) -> Seq<PieceView> {
    pieces.map_values(|p: Piece| p@)
}

spec fn component_views(components: Seq<Vec<Piece>>) -> Seq<Seq<PieceView>> {
    components.map_values(|c: Vec<Piece>| piece_views(c@))
}

impl View for Template {
    type V = TemplateView;

    closed spec fn view(&self) -> TemplateView {
        TemplateView { raw: self.raw@, components: component_views(self.components@) }
    }
}

/// Why a template was rejected.
#[derive(Debug, PartialEq, Eq)]
pub enum TemplateError {
    /// The template is empty.
    Empty,
    /// The template begins with `/`.
    Absolute,
    /// The template ends with `/`.
    TrailingSlash,
    /// The template contains `//`.
    EmptyComponent,
    /// A component is `.` or `..`.
    DotComponent(String),
    /// A `{` or `}` that is not part of `{name}`.
    InvalidBrace {
        /// The unexpected text, e.g. `{foo}` or a lone brace.
        found: String,
        /// Byte offset within the template.
        offset: usize,
    },
    /// The template contains a NUL byte.
    Nul,
    /// The template does not contain `{name}`.
    MissingName,
    /// `{group}` or `{subgroup}` is used outside a group set.
    GroupNotAllowed,
    /// A group set's target template does not contain every level
    /// placeholder the set uses.
    MissingLevel(&'static str),
    /// A literal component is longer than `NAME_MAX`.
    ComponentTooLong(usize),
}

/// What a template error says.
#[verifier::ext_equal]
pub enum TemplateErrorView {
    /// The template is empty.
    Empty,
    /// The template begins with `/`.
    Absolute,
    /// The template ends with `/`.
    TrailingSlash,
    /// The template contains `//`.
    EmptyComponent,
    /// A component is `.` or `..`.
    DotComponent(Seq<char>),
    /// A `{` or `}` that is not part of a placeholder.
    InvalidBrace {
        /// The unexpected text.
        found: Seq<char>,
        /// Byte offset within the template.
        offset: nat,
    },
    /// The template contains a NUL byte.
    Nul,
    /// The template does not contain `{name}`.
    MissingName,
    /// A level placeholder is used outside a group set.
    GroupNotAllowed,
    /// A level placeholder is missing.
    MissingLevel(Seq<char>),
    /// A literal component is longer than `NAME_MAX`.
    ComponentTooLong(nat),
}

impl View for TemplateError {
    type V = TemplateErrorView;

    open spec fn view(&self) -> TemplateErrorView {
        match self {
            TemplateError::Empty => TemplateErrorView::Empty,
            TemplateError::Absolute => TemplateErrorView::Absolute,
            TemplateError::TrailingSlash => TemplateErrorView::TrailingSlash,
            TemplateError::EmptyComponent => TemplateErrorView::EmptyComponent,
            TemplateError::DotComponent(s) => TemplateErrorView::DotComponent(s@),
            TemplateError::InvalidBrace { found, offset } => TemplateErrorView::InvalidBrace {
                found: found@,
                offset: *offset as nat,
            },
            TemplateError::Nul => TemplateErrorView::Nul,
            TemplateError::MissingName => TemplateErrorView::MissingName,
            TemplateError::GroupNotAllowed => TemplateErrorView::GroupNotAllowed,
            TemplateError::MissingLevel(s) => TemplateErrorView::MissingLevel(s@),
            TemplateError::ComponentTooLong(n) => TemplateErrorView::ComponentTooLong(*n as nat),
        }
    }
}

/// Why interpolating a valid template with a valid name failed.
#[derive(Debug, Clone, Copy, PartialEq, Eq, Structural)]
pub enum InterpolateError {
    /// An interpolated component exceeds `NAME_MAX`.
    ComponentTooLong(usize),
    /// The interpolated path exceeds `PATH_MAX`.
    PathTooLong(usize),
}

/// The literal collected so far, as pieces.
pub open spec fn flush(literal: Seq<char>) -> Seq<PieceView> {
    if literal.len() == 0 {
        Seq::empty()
    } else {
        seq![PieceView::Literal(literal)]
    }
}

/// What stands at a brace that begins no placeholder: the text up to the next
/// `}`, or the brace alone.
pub open spec fn found_at(rest: Seq<char>) -> Seq<char> {
    if rest[0] == '{' && rest.contains('}') {
        rest.take(rest.index_of_first('}')->0 + 1)
    } else {
        rest.take(1)
    }
}

/// The pieces of a component: `literal` is the text since the last
/// placeholder and `offset` the byte offset of `rest` within the template.
pub open spec fn parse_pieces(
    rest: Seq<char>,
    literal: Seq<char>,
    offset: nat,
    allow_group: bool,
) -> Result<Seq<PieceView>, TemplateErrorView>
    decreases rest.len(),
{
    if rest.len() == 0 {
        Ok(flush(literal))
    } else if rest[0] != '{' && rest[0] != '}' {
        parse_pieces(
            rest.drop_first(),
            literal.push(rest[0]),
            offset + char_width(rest[0]),
            allow_group,
        )
    } else if name_placeholder().is_prefix_of(rest) {
        match parse_pieces(rest.skip(6), Seq::empty(), offset + 6, allow_group) {
            Ok(pieces) => Ok(flush(literal) + seq![PieceView::Name] + pieces),
            Err(e) => Err(e),
        }
    } else if level_text(0).is_prefix_of(rest) {
        if !allow_group {
            Err(TemplateErrorView::GroupNotAllowed)
        } else {
            match parse_pieces(rest.skip(7), Seq::empty(), offset + 7, allow_group) {
                Ok(pieces) => Ok(flush(literal) + seq![PieceView::Level(0)] + pieces),
                Err(e) => Err(e),
            }
        }
    } else if level_text(1).is_prefix_of(rest) {
        if !allow_group {
            Err(TemplateErrorView::GroupNotAllowed)
        } else {
            match parse_pieces(rest.skip(10), Seq::empty(), offset + 10, allow_group) {
                Ok(pieces) => Ok(flush(literal) + seq![PieceView::Level(1)] + pieces),
                Err(e) => Err(e),
            }
        }
    } else {
        Err(TemplateErrorView::InvalidBrace { found: found_at(rest), offset })
    }
}

/// Whether all pieces are literals.
pub open spec fn all_literal(pieces: Seq<PieceView>) -> bool {
    forall|i: int| 0 <= i < pieces.len() ==> (#[trigger] pieces[i]) is Literal
}

/// What one component at byte `offset` of the template parses to.
pub open spec fn parse_component_text(
    component: Seq<char>,
    offset: nat,
    allow_group: bool,
) -> Result<Seq<PieceView>, TemplateErrorView> {
    if component.len() == 0 {
        Err(TemplateErrorView::EmptyComponent)
    } else if component == seq!['.'] || component == seq!['.', '.'] {
        Err(TemplateErrorView::DotComponent(component))
    } else {
        match parse_pieces(component, Seq::empty(), offset, allow_group) {
            Err(e) => Err(e),
            Ok(pieces) => if all_literal(pieces) && byte_len(component) > MAX_NAME_LEN {
                Err(TemplateErrorView::ComponentTooLong(byte_len(component)))
            } else {
                Ok(pieces)
            },
        }
    }
}

/// The byte offset of component `i`.
pub open spec fn component_offset(parts: Seq<Seq<char>>, i: int) -> nat {
    if i <= 0 {
        0
    } else {
        byte_len(join(parts.take(i), seq!['/'])) + 1
    }
}

/// What the components parse to; the first bad one decides.
pub open spec fn parse_parts(parts: Seq<Seq<char>>, allow_group: bool) -> Result<
    Seq<Seq<PieceView>>,
    TemplateErrorView,
>
    decreases parts.len(),
{
    if parts.len() == 0 {
        Ok(Seq::empty())
    } else {
        match parse_parts(parts.drop_last(), allow_group) {
            Err(e) => Err(e),
            Ok(front) => match parse_component_text(
                parts.last(),
                component_offset(parts, parts.len() - 1),
                allow_group,
            ) {
                Err(e) => Err(e),
                Ok(pieces) => Ok(front.push(pieces)),
            },
        }
    }
}

/// Whether some component has the piece.
pub open spec fn has_piece(components: Seq<Seq<PieceView>>, piece: PieceView) -> bool {
    exists|i: int| 0 <= i < components.len() && (#[trigger] components[i]).contains(piece)
}

/// What parsing a template gives.
pub open spec fn parse_template(raw: Seq<char>, allow_group: bool) -> Result<
    TemplateView,
    TemplateErrorView,
> {
    if raw.len() == 0 {
        Err(TemplateErrorView::Empty)
    } else if raw.contains('\0') {
        Err(TemplateErrorView::Nul)
    } else if raw[0] == '/' {
        Err(TemplateErrorView::Absolute)
    } else if raw.last() == '/' {
        Err(TemplateErrorView::TrailingSlash)
    } else {
        match parse_parts(split(raw, '/'), allow_group) {
            Err(e) => Err(e),
            Ok(components) => if !has_piece(components, PieceView::Name) {
                Err(TemplateErrorView::MissingName)
            } else {
                Ok(TemplateView { raw, components })
            },
        }
    }
}

proof fn lemma_parse_parts_error(parts: Seq<Seq<char>>, n: int, allow_group: bool)
    requires
        0 <= n <= parts.len(),
        parse_parts(parts.take(n), allow_group) is Err,
    ensures
        parse_parts(parts, allow_group) == parse_parts(parts.take(n), allow_group),
    decreases parts.len() - n,
{
    if n < parts.len() {
        assert(parts.take(n + 1).drop_last() =~= parts.take(n));
        lemma_parse_parts_error(parts, n + 1, allow_group);
    } else {
        assert(parts.take(n) =~= parts);
    }
}

/// A join of a prefix is no longer than the join, with room for the separator.
proof fn lemma_join_prefix_len(parts: Seq<Seq<char>>, n: int)
    requires
        1 <= n <= parts.len(),
    ensures
        byte_len(join(parts.take(n), seq!['/'])) <= byte_len(join(parts, seq!['/'])),
        n < parts.len() ==> byte_len(join(parts.take(n), seq!['/'])) + 1 + byte_len(parts[n])
            <= byte_len(join(parts, seq!['/'])),
    decreases parts.len(),
{
    if n == parts.len() {
        assert(parts.take(n) =~= parts);
    } else {
        let front = parts.drop_last();
        assert(front.take(n) =~= parts.take(n));
        lemma_join_prefix_len(front, n);
        crate::text::lemma_byte_len_concat(join(front, seq!['/']) + seq!['/'], parts.last());
        crate::text::lemma_byte_len_push(join(front, seq!['/']), '/');
        assert(join(front, seq!['/']) + seq!['/'] =~= join(front, seq!['/']).push('/'));
        if n == front.len() {
            assert(front.take(n) =~= front);
        } else {
            assert(front[n] == parts[n]);
        }
    }
}

/// Whether the characters of `v` from `at` on begin with `p`.
fn begins_at(v: &Vec<char>, at: usize, p: &Vec<char>) -> (r: bool)
    requires
        at <= v@.len(),
    ensures
        r == p@.is_prefix_of(v@.skip(at as int)),
{
    if v.len() - at < p.len() {
        return false;
    }
    let mut i: usize = 0;
    while i < p.len()
        invariant
            at <= v@.len() <= usize::MAX,
            p@.len() <= v@.len() - at,
            i <= p@.len(),
            forall|j: int| 0 <= j < i ==> v@[at + j] == #[trigger] p@[j],
        decreases p@.len() - i,
    {
        if v[at + i] != p[i] {
            assert(v@.skip(at as int)[i as int] == v@[at + i]);
            assert(!p@.is_prefix_of(v@.skip(at as int))) by {
                if p@.is_prefix_of(v@.skip(at as int)) {
                    assert(p@ =~= v@.skip(at as int).take(p@.len() as int));
                    assert(p@[i as int] == v@.skip(at as int)[i as int]);
                }
            }
            return false;
        }
        i += 1;
    }
    assert(p@ =~= v@.skip(at as int).take(p@.len() as int));
    true
}

fn placeholder_chars() -> (r: Vec<char>)
    ensures
        r@ == name_placeholder(),
{
    let r = vec!['{', 'n', 'a', 'm', 'e', '}'];
    assert(r@ =~= name_placeholder());
    r
}

fn level_chars(level: usize) -> (r: Vec<char>)
    ensures
        r@ == level_text(level as nat),
{
    if level == 0 {
        let r = vec!['{', 'g', 'r', 'o', 'u', 'p', '}'];
        assert(r@ =~= level_text(0));
        r
    } else {
        let r = vec!['{', 's', 'u', 'b', 'g', 'r', 'o', 'u', 'p', '}'];
        assert(r@ =~= level_text(1));
        r
    }
}

/// What stands at the brace at `at`.
fn brace_text(v: &Vec<char>, at: usize) -> (r: String)
    requires
        at < v@.len(),
    ensures
        r@ == found_at(v@.skip(at as int)),
{
    let ghost rest = v@.skip(at as int);
    assert(rest[0] == v@[at as int]);
    if v[at] == '{' {
        let mut end: usize = at;
        while end < v.len()
            invariant
                at <= end <= v@.len(),
                rest == v@.skip(at as int),
                v@[at as int] == '{',
                rest[0] == '{',
                forall|j: int| at <= j < end ==> v@[j] != '}',
            decreases v@.len() - end,
        {
            if v[end] == '}' {
                proof {
                    let k = end - at;
                    assert(rest[k] == '}');
                    assert(rest.contains('}'));
                    rest.index_of_first_ensures('}');
                    let f = rest.index_of_first('}')->0;
                    assert(rest[f] == v@[at + f]);
                    assert(f == k);
                    assert(v@.subrange(at as int, end + 1) =~= rest.take(k + 1));
                }
                return text_between(v, at, end + 1);
            }
            end += 1;
        }
        assert(!rest.contains('}')) by {
            if rest.contains('}') {
                let k = choose|k: int| 0 <= k < rest.len() && rest[k] == '}';
                assert(v@[at + k] == '}');
            }
        }
    }
    assert(v@.subrange(at as int, at + 1) =~= rest.take(1));
    let n: usize = v.len();
    text_between(v, at, at + 1)
}

/// Appends what `done` is followed by, as one result.
spec fn after(done: Seq<PieceView>, rest: Result<Seq<PieceView>, TemplateErrorView>) -> Result<
    Seq<PieceView>,
    TemplateErrorView,
> {
    match rest {
        Ok(pieces) => Ok(done + pieces),
        Err(e) => Err(e),
    }
}

fn push_literal(pieces: &mut Vec<Piece>, literal: String)
    ensures
        piece_views(final(pieces)@) == piece_views(old(pieces)@) + flush(literal@),
{
    if !literal.as_str().is_empty() {
        let ghost text = literal@;
        pieces.push(Piece::Literal(literal));
        assert(piece_views(pieces@) =~= piece_views(old(pieces)@) + flush(text));
    } else {
        assert(piece_views(pieces@) =~= piece_views(old(pieces)@) + flush(literal@));
    }
}

fn parse_component(component: &str, base_offset: usize, allow_group: bool) -> (r: Result<
    Vec<Piece>,
    TemplateError,
>)
    requires
        base_offset + byte_len(component@) <= usize::MAX,
    ensures
        match r {
            Ok(pieces) => parse_pieces(component@, Seq::empty(), base_offset as nat, allow_group)
                == Ok::<Seq<PieceView>, TemplateErrorView>(piece_views(pieces@)),
            Err(e) => parse_pieces(component@, Seq::empty(), base_offset as nat, allow_group)
                == Err::<Seq<PieceView>, TemplateErrorView>(e@),
        },
{
    let v = chars_of(component);
    let name_chars = placeholder_chars();
    let group_chars = level_chars(0);
    let subgroup_chars = level_chars(1);
    let mut pieces: Vec<Piece> = Vec::new();
    let mut literal = String::new();
    let mut offset: usize = base_offset;
    let mut i: usize = 0;
    let ghost whole = parse_pieces(component@, Seq::empty(), base_offset as nat, allow_group);
    proof {
        assert(v@.skip(0) =~= v@);
        assert(piece_views(pieces@) =~= Seq::<PieceView>::empty());
        if whole is Ok {
            assert(Seq::<PieceView>::empty() + whole->Ok_0 =~= whole->Ok_0);
        }
    }
    while i < v.len()
        invariant
            i <= v@.len(),
            v@ == component@,
            name_chars@ == name_placeholder(),
            group_chars@ == level_text(0),
            subgroup_chars@ == level_text(1),
            offset + byte_len(v@.skip(i as int)) == base_offset + byte_len(component@),
            base_offset + byte_len(component@) <= usize::MAX,
            whole == parse_pieces(component@, Seq::empty(), base_offset as nat, allow_group),
            whole == after(
                piece_views(pieces@),
                parse_pieces(v@.skip(i as int), literal@, offset as nat, allow_group),
            ),
        decreases v@.len() - i,
    {
        let ghost rest = v@.skip(i as int);
        let ghost tail = parse_pieces(rest, literal@, offset as nat, allow_group);
        assert(rest[0] == v@[i as int]);
        let c = v[i];
        if c != '{' && c != '}' {
            proof {
                assert(rest.drop_first() =~= v@.skip(i + 1));
                assert(rest =~= seq![c] + rest.drop_first());
                crate::text::lemma_byte_len_concat(seq![c], rest.drop_first());
                crate::text::lemma_byte_len_push(Seq::empty(), c);
                assert(Seq::<char>::empty().push(c) =~= seq![c]);
            }
            literal.push(c);
            offset += width(c);
            i += 1;
            continue;
        }
        let ghost old_pieces = piece_views(pieces@);
        let ghost text = literal@;
        let ghost start = offset as nat;
        let step: usize;
        let piece: Piece;
        if begins_at(&v, i, &name_chars) {
            step = 6;
            piece = Piece::Name;
        } else if begins_at(&v, i, &group_chars) {
            if !allow_group {
                return Err(TemplateError::GroupNotAllowed);
            }
            step = 7;
            piece = Piece::Level(0);
        } else if begins_at(&v, i, &subgroup_chars) {
            if !allow_group {
                return Err(TemplateError::GroupNotAllowed);
            }
            step = 10;
            piece = Piece::Level(1);
        } else {
            return Err(TemplateError::InvalidBrace { found: brace_text(&v, i), offset });
        }
        let ghost p = piece@;
        proof {
            assert(rest.len() >= step);
            assert(rest.skip(step as int) =~= v@.skip(i + step));
            assert(rest =~= rest.take(step as int) + rest.skip(step as int));
            crate::text::lemma_byte_len_concat(rest.take(step as int), rest.skip(step as int));
            lemma_placeholder_len(rest, step as int);
        }
        let mut done = String::new();
        std::mem::swap(&mut done, &mut literal);
        push_literal(&mut pieces, done);
        let ghost mid = piece_views(pieces@);
        pieces.push(piece);
        offset += step;
        i += step;
        proof {
            assert(piece_views(pieces@) =~= old_pieces + flush(text) + seq![p]);
            let inner = parse_pieces(v@.skip(i as int), Seq::empty(), offset as nat, allow_group);
            if inner is Ok {
                assert(tail == Ok::<Seq<PieceView>, TemplateErrorView>(
                    flush(text) + seq![p] + inner->Ok_0,
                ));
                assert(old_pieces + (flush(text) + seq![p] + inner->Ok_0) =~= (old_pieces + flush(
                    text,
                ) + seq![p]) + inner->Ok_0);
            }
        }
    }
    proof {
        assert(v@.skip(v@.len() as int) =~= Seq::<char>::empty());
    }
    push_literal(&mut pieces, literal);
    Ok(pieces)
}

/// A placeholder is as many bytes as characters.
proof fn lemma_placeholder_len(rest: Seq<char>, n: int)
    requires
        (n == 6 && name_placeholder().is_prefix_of(rest)) || (n == 7 && level_text(0).is_prefix_of(
            rest,
        )) || (n == 10 && level_text(1).is_prefix_of(rest)),
    ensures
        rest.len() >= n,
        byte_len(rest.take(n)) == n,
{
    let p = if n == 6 {
        name_placeholder()
    } else if n == 7 {
        level_text(0)
    } else {
        level_text(1)
    };
    assert(rest.take(n) =~= p);
    assert(vstd::utf8::is_ascii_chars(p));
    vstd::utf8::is_ascii_chars_encode_utf8(p);
}

/// The text of a piece as it is written in a template.
pub open spec fn piece_text(p: PieceView) -> Seq<char> {
    match p {
        PieceView::Literal(text) => text,
        PieceView::Name => name_placeholder(),
        PieceView::Level(level) => level_text(level),
    }
}

/// The pieces put together, each by the text that `f` gives it.
pub open spec fn put_together(f: spec_fn(PieceView) -> Seq<char>, pieces: Seq<PieceView>) -> Seq<char>
    decreases pieces.len(),
{
    if pieces.len() == 0 {
        Seq::empty()
    } else {
        put_together(f, pieces.drop_last()) + f(pieces.last())
    }
}

/// The text of the pieces of a component as it is written in a template.
pub open spec fn render(pieces: Seq<PieceView>) -> Seq<char> {
    put_together(|p: PieceView| piece_text(p), pieces)
}

/// The text with no brace in it.
pub open spec fn brace_free(s: Seq<char>) -> bool {
    forall|i: int| 0 <= i < s.len() ==> (#[trigger] s[i]) != '{' && s[i] != '}'
}

/// Pieces as parsing yields them: literals are not empty, hold no brace, and
/// no two of them are adjacent.
pub open spec fn normal(pieces: Seq<PieceView>) -> bool {
    &&& forall|i: int|
        0 <= i < pieces.len() ==> match #[trigger] pieces[i] {
            PieceView::Literal(text) => text.len() > 0 && brace_free(text),
            PieceView::Name => true,
            PieceView::Level(level) => level < 2,
        }
    &&& forall|i: int|
        0 <= i < pieces.len() - 1 ==> !((#[trigger] pieces[i]) is Literal && pieces[i + 1] is Literal)
}

/// Whether the pieces hold no level placeholder.
pub open spec fn level_free(pieces: Seq<PieceView>) -> bool {
    forall|i: int| 0 <= i < pieces.len() ==> !((#[trigger] pieces[i]) is Level)
}

proof fn lemma_put_together_concat(
    f: spec_fn(PieceView) -> Seq<char>,
    a: Seq<PieceView>,
    b: Seq<PieceView>,
)
    ensures
        put_together(f, a + b) == put_together(f, a) + put_together(f, b),
    decreases b.len(),
{
    if b.len() == 0 {
        assert(a + b =~= a);
        assert(put_together(f, a) + put_together(f, b) =~= put_together(f, a));
    } else {
        assert((a + b).drop_last() =~= a + b.drop_last());
        lemma_put_together_concat(f, a, b.drop_last());
        assert(put_together(f, a + b) =~= put_together(f, a) + put_together(f, b));
    }
}

proof fn lemma_put_together_one(f: spec_fn(PieceView) -> Seq<char>, p: PieceView)
    ensures
        put_together(f, seq![p]) == f(p),
{
    reveal_with_fuel(put_together, 2);
    assert(seq![p].drop_last() =~= Seq::<PieceView>::empty());
    assert(Seq::<char>::empty() + f(p) =~= f(p));
}

/// Success does not depend on the offset, and what is allowed outside a group
/// set is allowed in one.
proof fn lemma_parse_pieces_allows(
    rest: Seq<char>,
    literal: Seq<char>,
    offset: nat,
    other: nat,
    allow: bool,
    more: bool,
)
    requires
        parse_pieces(rest, literal, offset, allow) is Ok,
        allow ==> more,
    ensures
        parse_pieces(rest, literal, other, more) == parse_pieces(rest, literal, offset, allow),
    decreases rest.len(),
{
    if rest.len() > 0 {
        if rest[0] != '{' && rest[0] != '}' {
            let w = char_width(rest[0]);
            lemma_parse_pieces_allows(
                rest.drop_first(),
                literal.push(rest[0]),
                offset + w,
                other + w,
                allow,
                more,
            );
        } else if name_placeholder().is_prefix_of(rest) {
            lemma_parse_pieces_allows(
                rest.skip(6),
                Seq::empty(),
                offset + 6,
                other + 6,
                allow,
                more,
            );
        } else if level_text(0).is_prefix_of(rest) {
            lemma_parse_pieces_allows(
                rest.skip(7),
                Seq::empty(),
                offset + 7,
                other + 7,
                allow,
                more,
            );
        } else if level_text(1).is_prefix_of(rest) {
            lemma_parse_pieces_allows(
                rest.skip(10),
                Seq::empty(),
                offset + 10,
                other + 10,
                allow,
                more,
            );
        }
    }
}

proof fn lemma_parse_parts_allows(parts: Seq<Seq<char>>, allow: bool)
    requires
        parse_parts(parts, allow) is Ok,
    ensures
        parse_parts(parts, true) == parse_parts(parts, allow),
    decreases parts.len(),
{
    if parts.len() > 0 {
        lemma_parse_parts_allows(parts.drop_last(), allow);
        let at = component_offset(parts, parts.len() - 1);
        lemma_parse_pieces_allows(parts.last(), Seq::empty(), at, at, allow, true);
    }
}

/// What is parsed is in normal form, and put together it is the text again.
/// Outside a group set there is no level placeholder.
#[verifier::spinoff_prover]
#[verifier::rlimit(60)]
proof fn lemma_parse_pieces_render(rest: Seq<char>, literal: Seq<char>, offset: nat, allow: bool)
    requires
        brace_free(literal),
    ensures
        parse_pieces(rest, literal, offset, allow) matches Ok(pieces) ==> {
            &&& normal(pieces)
            &&& render(pieces) == literal + rest
            &&& !allow ==> level_free(pieces)
            &&& literal.len() > 0 ==> pieces.len() > 0
        },
    decreases rest.len(),
{
    let f = |p: PieceView| piece_text(p);
    let r = parse_pieces(rest, literal, offset, allow);
    if rest.len() == 0 {
        assert(literal + rest =~= literal);
        if literal.len() > 0 {
            lemma_put_together_one(f, PieceView::Literal(literal));
        } else {
            assert(flush(literal) =~= Seq::<PieceView>::empty());
            assert(render(flush(literal)) =~= literal);
        }
    } else if rest[0] != '{' && rest[0] != '}' {
        let next = literal.push(rest[0]);
        lemma_parse_pieces_render(rest.drop_first(), next, offset + char_width(rest[0]), allow);
        assert(next + rest.drop_first() =~= literal + rest);
    } else if r is Ok {
        let n = if name_placeholder().is_prefix_of(rest) {
            6int
        } else if level_text(0).is_prefix_of(rest) {
            7
        } else {
            10
        };
        let p = if n == 6 {
            PieceView::Name
        } else if n == 7 {
            PieceView::Level(0)
        } else {
            PieceView::Level(1)
        };
        lemma_parse_pieces_render(rest.skip(n), Seq::empty(), offset + n as nat, allow);
        let inner = parse_pieces(rest.skip(n), Seq::empty(), offset + n as nat, allow)->Ok_0;
        assert(Seq::<char>::empty() + rest.skip(n) =~= rest.skip(n));
        assert(piece_text(p) =~= rest.take(n));
        lemma_normal_prepend(literal, p, inner);
        assert(literal + piece_text(p) + rest.skip(n) =~= literal + rest);
    }
}

/// A literal and a placeholder before pieces in normal form.
proof fn lemma_normal_prepend(literal: Seq<char>, p: PieceView, inner: Seq<PieceView>)
    requires
        brace_free(literal),
        p is Name || p == PieceView::Level(0) || p == PieceView::Level(1),
        normal(inner),
    ensures
        normal(flush(literal) + seq![p] + inner),
        render(flush(literal) + seq![p] + inner) == literal + piece_text(p) + render(inner),
        p is Name && level_free(inner) ==> level_free(flush(literal) + seq![p] + inner),
{
    let f = |p: PieceView| piece_text(p);
    let head = flush(literal) + seq![p];
    let all = head + inner;
    lemma_put_together_concat(f, flush(literal), seq![p]);
    lemma_put_together_concat(f, head, inner);
    lemma_put_together_one(f, p);
    if literal.len() > 0 {
        lemma_put_together_one(f, PieceView::Literal(literal));
    }
    assert(render(flush(literal)) =~= literal);
    let k = flush(literal).len();
    assert forall|i: int| 0 <= i < all.len() implies match #[trigger] all[i] {
        PieceView::Literal(text) => text.len() > 0 && brace_free(text),
        PieceView::Name => true,
        PieceView::Level(level) => level < 2,
    } by {
        if i > k {
            assert(all[i] == inner[i - k - 1]);
        }
    }
    assert forall|i: int| 0 <= i < all.len() - 1 implies !((#[trigger] all[i]) is Literal && all[i
        + 1] is Literal) by {
        if i > k {
            assert(all[i] == inner[i - k - 1]);
            assert(all[i + 1] == inner[i - k]);
        } else if i == k {
            assert(all[i] == p);
        } else {
            assert(all[i + 1] == p);
        }
    }
    if p is Name && level_free(inner) {
        assert forall|i: int| 0 <= i < all.len() implies !((#[trigger] all[i]) is Level) by {
            if i > k {
                assert(all[i] == inner[i - k - 1]);
            }
        }
    }
}

/// Text before the first brace is collected into the literal.
proof fn lemma_parse_literal(text: Seq<char>, rest: Seq<char>, literal: Seq<char>, offset: nat, allow: bool)
    requires
        brace_free(text),
        parse_pieces(rest, literal + text, 0, allow) is Ok,
    ensures
        parse_pieces(text + rest, literal, offset, allow) == parse_pieces(
            rest,
            literal + text,
            0,
            allow,
        ),
    decreases text.len(),
{
    if text.len() == 0 {
        assert(text + rest =~= rest);
        assert(literal + text =~= literal);
        lemma_parse_pieces_allows(rest, literal, 0, offset, allow, allow);
    } else {
        let whole = text + rest;
        assert(whole[0] == text[0]);
        assert(whole.drop_first() =~= text.drop_first() + rest);
        assert(literal.push(text[0]) + text.drop_first() =~= literal + text);
        assert forall|i: int| 0 <= i < text.drop_first().len() implies (
        #[trigger] text.drop_first()[i]) != '{' && text.drop_first()[i] != '}' by {
            assert(text.drop_first()[i] == text[i + 1]);
        }
        lemma_parse_literal(
            text.drop_first(),
            rest,
            literal.push(text[0]),
            offset + char_width(text[0]),
            allow,
        );
    }
}

/// Pieces in normal form are parsed back from their text.
proof fn lemma_render_parses(pieces: Seq<PieceView>, literal: Seq<char>, offset: nat, allow: bool)
    requires
        normal(pieces),
        allow || level_free(pieces),
        literal.len() > 0 ==> pieces.len() == 0 || !(pieces[0] is Literal),
    ensures
        parse_pieces(render(pieces), literal, offset, allow) == Ok::<
            Seq<PieceView>,
            TemplateErrorView,
        >(flush(literal) + pieces),
    decreases pieces.len(),
{
    let f = |p: PieceView| piece_text(p);
    if pieces.len() == 0 {
        assert(flush(literal) + pieces =~= flush(literal));
    } else {
        let p = pieces[0];
        let tail = pieces.drop_first();
        assert(pieces =~= seq![p] + tail);
        lemma_put_together_concat(f, seq![p], tail);
        lemma_put_together_one(f, p);
        let rest = render(tail);
        assert(render(pieces) == piece_text(p) + rest);
        lemma_normal_tail(pieces);
        match p {
            PieceView::Literal(text) => {
                assert(literal.len() == 0);
                if tail.len() > 0 {
                    assert(tail[0] == pieces[1]);
                    assert(!(pieces[0] is Literal && pieces[0int + 1] is Literal));
                }
                lemma_render_parses(tail, text, 0, allow);
                assert(literal + text =~= text);
                lemma_parse_literal(text, rest, literal, offset, allow);
                assert(flush(literal) + pieces =~= flush(text) + tail);
            },
            _ => {
                let n = piece_text(p).len();
                assert(!(pieces[0] is Literal));
                lemma_render_parses(tail, Seq::empty(), offset + n, allow);
                assert(Seq::<PieceView>::empty() + tail =~= tail);
                assert(allow || !(pieces[0] is Level));
                lemma_parse_placeholder(p, rest, literal, offset, allow, tail);
                assert(flush(literal) + seq![p] + tail =~= flush(literal) + pieces);
            },
        }
    }
}

/// What follows the first piece of pieces in normal form is in normal form.
proof fn lemma_normal_tail(pieces: Seq<PieceView>)
    requires
        normal(pieces),
        pieces.len() > 0,
    ensures
        normal(pieces.drop_first()),
        level_free(pieces) ==> level_free(pieces.drop_first()),
{
    let tail = pieces.drop_first();
    assert forall|i: int| 0 <= i < tail.len() implies match #[trigger] tail[i] {
        PieceView::Literal(text) => text.len() > 0 && brace_free(text),
        PieceView::Name => true,
        PieceView::Level(level) => level < 2,
    } by {
        assert(tail[i] == pieces[i + 1]);
    }
    assert forall|i: int| 0 <= i < tail.len() - 1 implies !((#[trigger] tail[i]) is Literal && tail[i
        + 1] is Literal) by {
        assert(tail[i] == pieces[i + 1]);
        assert(tail[i + 1] == pieces[i + 2]);
    }
    if level_free(pieces) {
        assert forall|i: int| 0 <= i < tail.len() implies !((#[trigger] tail[i]) is Level) by {
            assert(tail[i] == pieces[i + 1]);
        }
    }
}

/// What stands before the last piece of pieces in normal form is in normal
/// form.
proof fn lemma_normal_front(pieces: Seq<PieceView>)
    requires
        normal(pieces),
        pieces.len() > 0,
    ensures
        normal(pieces.drop_last()),
{
    let front = pieces.drop_last();
    assert forall|i: int| 0 <= i < front.len() implies match #[trigger] front[i] {
        PieceView::Literal(text) => text.len() > 0 && brace_free(text),
        PieceView::Name => true,
        PieceView::Level(level) => level < 2,
    } by {
        assert(front[i] == pieces[i]);
    }
    assert forall|i: int| 0 <= i < front.len() - 1 implies !((#[trigger] front[i]) is Literal
        && front[i + 1] is Literal) by {
        assert(front[i] == pieces[i]);
        assert(front[i + 1] == pieces[i + 1]);
    }
}

/// A placeholder is parsed as what it is.
proof fn lemma_parse_placeholder(
    p: PieceView,
    rest: Seq<char>,
    literal: Seq<char>,
    offset: nat,
    allow: bool,
    inner: Seq<PieceView>,
)
    requires
        p is Name || p == PieceView::Level(0) || p == PieceView::Level(1),
        allow || p is Name,
        parse_pieces(rest, Seq::empty(), offset + piece_text(p).len(), allow) == Ok::<
            Seq<PieceView>,
            TemplateErrorView,
        >(inner),
    ensures
        parse_pieces(piece_text(p) + rest, literal, offset, allow) == Ok::<
            Seq<PieceView>,
            TemplateErrorView,
        >(flush(literal) + seq![p] + inner),
{
    let whole = piece_text(p) + rest;
    let n = piece_text(p).len() as int;
    assert(whole.take(n) =~= piece_text(p));
    assert(piece_text(p).is_prefix_of(whole));
    assert(whole[0] == '{');
    assert(whole[1] == piece_text(p)[1]);
    assert(whole.skip(n) =~= rest);
    lemma_prefixes_differ(whole);
}

/// At most one placeholder stands at any place.
proof fn lemma_prefixes_differ(s: Seq<char>)
    ensures
        name_placeholder().is_prefix_of(s) ==> s.len() >= 6 && s[1] == 'n',
        level_text(0).is_prefix_of(s) ==> s.len() >= 7 && s[1] == 'g',
        level_text(1).is_prefix_of(s) ==> s.len() >= 10 && s[1] == 's',
{
    if name_placeholder().is_prefix_of(s) {
        assert(s.take(6)[1] == s[1]);
    }
    if level_text(0).is_prefix_of(s) {
        assert(s.take(7)[1] == s[1]);
    }
    if level_text(1).is_prefix_of(s) {
        assert(s.take(10)[1] == s[1]);
    }
}

/// A component that stands for exactly one path component.
pub open spec fn clean_component(s: Seq<char>) -> bool {
    &&& s.len() > 0
    &&& s != seq!['.']
    &&& s != seq!['.', '.']
    &&& !s.contains('/')
    &&& !s.contains('\0')
}

/// Text that may stand in the place of a placeholder.
pub open spec fn safe_text(s: Seq<char>) -> bool {
    &&& s.len() > 0
    &&& s[0] != '.'
    &&& !s.contains('/')
    &&& !s.contains('\0')
}

/// A valid name may stand in the place of a placeholder.
pub proof fn lemma_name_is_safe(s: Seq<char>)
    requires
        valid_name(s),
    ensures
        safe_text(s),
        brace_free(s),
{
    assert forall|i: int| 0 <= i < s.len() implies s[i] != '/' && s[i] != '\0' && s[i] != '{'
        && s[i] != '}' by {
        assert(crate::name::allowed_char(s[i]));
    }
}

proof fn lemma_placeholder_is_safe(p: PieceView)
    requires
        !(p is Literal),
    ensures
        safe_text(piece_text(p)),
{
    let s = piece_text(p);
    assert forall|i: int| 0 <= i < s.len() implies s[i] != '/' && s[i] != '\0' by {}
}

/// Putting safe text in the place of placeholders adds no separator, and
/// leaves a character other than `.` where there was a placeholder.
proof fn lemma_put_together_safe(f: spec_fn(PieceView) -> Seq<char>, pieces: Seq<PieceView>)
    requires
        forall|p: PieceView| p is Literal ==> #[trigger] f(p) == p->Literal_0,
        forall|i: int|
            0 <= i < pieces.len() && !(pieces[i] is Literal) ==> safe_text(#[trigger] f(pieces[i])),
        normal(pieces),
        !render(pieces).contains('/'),
        !render(pieces).contains('\0'),
    ensures
        !put_together(f, pieces).contains('/'),
        !put_together(f, pieces).contains('\0'),
        pieces.len() > 0 ==> put_together(f, pieces).len() > 0,
        !all_literal(pieces) ==> exists|k: int|
            0 <= k < put_together(f, pieces).len() && put_together(f, pieces)[k] != '.',
        all_literal(pieces) ==> put_together(f, pieces) == render(pieces),
    decreases pieces.len(),
{
    if pieces.len() > 0 {
        let g = |p: PieceView| piece_text(p);
        let front = pieces.drop_last();
        let last = pieces.last();
        let whole = put_together(f, pieces);
        let text = render(pieces);
        assert(text == render(front) + piece_text(last));
        lemma_normal_front(pieces);
        assert forall|c: char| !#[trigger] text.contains(c) implies !render(front).contains(c)
            && !piece_text(last).contains(c) by {
            if render(front).contains(c) {
                let k = choose|k: int| 0 <= k < render(front).len() && render(front)[k] == c;
                assert(text[k] == c);
            }
            if piece_text(last).contains(c) {
                let k = choose|k: int| 0 <= k < piece_text(last).len() && piece_text(last)[k] == c;
                assert(text[render(front).len() + k] == c);
            }
        }
        assert forall|i: int| 0 <= i < front.len() && !(front[i] is Literal) implies safe_text(
            #[trigger] f(front[i]),
        ) by {
            assert(front[i] == pieces[i]);
            assert(safe_text(f(pieces[i])));
        }
        lemma_put_together_safe(f, front);
        let n = put_together(f, front).len();
        let added = f(last);
        assert(pieces[pieces.len() - 1] == last);
        if !(last is Literal) {
            assert(safe_text(f(pieces[pieces.len() - 1])));
        }
        assert(added.len() > 0);
        assert(!added.contains('/') && !added.contains('\0'));
        assert forall|k: int| 0 <= k < whole.len() implies whole[k] != '/' && whole[k] != '\0' by {
            if k < n {
                assert(whole[k] == put_together(f, front)[k]);
                assert(put_together(f, front).contains(whole[k]));
            } else {
                assert(whole[k] == added[k - n]);
                assert(added.contains(whole[k]));
            }
        }
        if !all_literal(pieces) {
            if last is Literal {
                assert(!all_literal(front)) by {
                    if all_literal(front) {
                        assert forall|i: int| 0 <= i < pieces.len() implies (
                        #[trigger] pieces[i]) is Literal by {
                            if i < front.len() {
                                assert(front[i] is Literal);
                            }
                        }
                    }
                }
                let k = choose|k: int|
                    0 <= k < put_together(f, front).len() && put_together(f, front)[k] != '.';
                assert(whole[k] != '.');
            } else {
                assert(whole[n as int] == added[0]);
            }
        } else {
            assert(all_literal(front)) by {
                assert forall|i: int| 0 <= i < front.len() implies (#[trigger] front[i]) is Literal by {
                    assert(pieces[i] is Literal);
                }
            }
        }
    }
}

/// Putting safe text in the place of the placeholders of a clean component
/// gives a clean component.
proof fn lemma_put_together_clean(f: spec_fn(PieceView) -> Seq<char>, pieces: Seq<PieceView>)
    requires
        forall|p: PieceView| p is Literal ==> #[trigger] f(p) == p->Literal_0,
        forall|i: int|
            0 <= i < pieces.len() && !(pieces[i] is Literal) ==> safe_text(#[trigger] f(pieces[i])),
        normal(pieces),
        clean_component(render(pieces)),
    ensures
        clean_component(put_together(f, pieces)),
{
    lemma_put_together_safe(f, pieces);
    let s = put_together(f, pieces);
    if pieces.len() == 0 {
        assert(render(pieces) =~= Seq::<char>::empty());
    }
    if !all_literal(pieces) {
        let k = choose|k: int| 0 <= k < s.len() && s[k] != '.';
        assert(s != seq!['.'] && s != seq!['.', '.']) by {
            if s == seq!['.'] || s == seq!['.', '.'] {
                assert(s[k] == '.');
            }
        }
    }
}

/// A template as parsing yields it.
pub open spec fn valid_template(t: TemplateView) -> bool {
    parse_template(t.raw, true) == Ok::<TemplateView, TemplateErrorView>(t)
}

/// A template without level placeholders, ready to be interpolated.
pub open spec fn bound_template(t: TemplateView) -> bool {
    forall|i: int| 0 <= i < t.components.len() ==> level_free(#[trigger] t.components[i])
}

/// What holds of the pieces that a component of a template parses to.
spec fn sound_pieces(pieces: Seq<PieceView>, part: Seq<char>, allow: bool) -> bool {
    &&& normal(pieces)
    &&& render(pieces) == part
    &&& part.len() > 0
    &&& part != seq!['.']
    &&& part != seq!['.', '.']
    &&& all_literal(pieces) ==> byte_len(part) <= MAX_NAME_LEN
    &&& !allow ==> level_free(pieces)
}

proof fn lemma_component_facts(part: Seq<char>, offset: nat, allow: bool)
    ensures
        parse_component_text(part, offset, allow) matches Ok(pieces) ==> sound_pieces(
            pieces,
            part,
            allow,
        ),
{
    lemma_parse_pieces_render(part, Seq::empty(), offset, allow);
    assert(Seq::<char>::empty() + part =~= part);
}

proof fn lemma_parse_parts_facts(parts: Seq<Seq<char>>, allow: bool)
    requires
        parse_parts(parts, allow) is Ok,
    ensures
        parse_parts(parts, allow)->Ok_0.len() == parts.len(),
        forall|i: int|
            0 <= i < parts.len() ==> sound_pieces(
                #[trigger] parse_parts(parts, allow)->Ok_0[i],
                parts[i],
                allow,
            ),
    decreases parts.len(),
{
    if parts.len() > 0 {
        let front = parts.drop_last();
        lemma_parse_parts_facts(front, allow);
        let all = parse_parts(parts, allow)->Ok_0;
        let before = parse_parts(front, allow)->Ok_0;
        let at = component_offset(parts, parts.len() - 1);
        lemma_component_facts(parts.last(), at, allow);
        assert(all == before.push(parse_component_text(parts.last(), at, allow)->Ok_0));
        assert forall|i: int| 0 <= i < parts.len() implies sound_pieces(
            #[trigger] all[i],
            parts[i],
            allow,
        ) by {
            if i < front.len() {
                assert(all[i] == before[i]);
                assert(parts[i] == front[i]);
            }
        }
    }
}

/// The components of a template: each is in normal form, and its text is one
/// clean path component.
pub proof fn lemma_template_components(raw: Seq<char>, allow: bool)
    requires
        parse_template(raw, allow) is Ok,
    ensures
        ({
            let t = parse_template(raw, allow)->Ok_0;
            &&& t.raw == raw
            &&& t.components.len() == split(raw, '/').len()
            &&& t.components.len() > 0
            &&& has_piece(t.components, PieceView::Name)
            &&& forall|i: int|
                0 <= i < t.components.len() ==> {
                    let pieces = #[trigger] t.components[i];
                    &&& normal(pieces)
                    &&& clean_component(render(pieces))
                    &&& render(pieces) == split(raw, '/')[i]
                    &&& all_literal(pieces) ==> byte_len(render(pieces)) <= MAX_NAME_LEN
                }
            &&& !allow ==> bound_template(t)
        }),
{
    let parts = split(raw, '/');
    let t = parse_template(raw, allow)->Ok_0;
    lemma_parse_parts_facts(parts, allow);
    crate::text::lemma_split_nonempty(raw, '/');
    crate::text::lemma_split_parts_clean(raw, '/');
    assert forall|i: int| 0 <= i < t.components.len() implies {
        let pieces = #[trigger] t.components[i];
        &&& normal(pieces)
        &&& clean_component(render(pieces))
        &&& render(pieces) == parts[i]
        &&& all_literal(pieces) ==> byte_len(render(pieces)) <= MAX_NAME_LEN
    } by {
        assert(parse_parts(parts, allow)->Ok_0[i] == t.components[i]);
        assert(!parts[i].contains('/'));
        if parts[i].contains('\0') {
            crate::text::lemma_split_parts_within(raw, '/', i, '\0');
        }
    }
    if !allow {
        assert forall|i: int| 0 <= i < t.components.len() implies level_free(
            #[trigger] t.components[i],
        ) by {
            assert(parse_parts(parts, allow)->Ok_0[i] == t.components[i]);
        }
    }
}

/// What a static template parses to, it parses to in a group set too.
pub proof fn lemma_static_template_valid(raw: Seq<char>, allow: bool)
    requires
        parse_template(raw, allow) is Ok,
    ensures
        valid_template(parse_template(raw, allow)->Ok_0),
{
    lemma_parse_parts_allows(split(raw, '/'), allow);
}

/// The text of each component.
pub open spec fn rendered(components: Seq<Seq<PieceView>>) -> Seq<Seq<char>> {
    components.map_values(|c: Seq<PieceView>| render(c))
}

proof fn lemma_parts_parse(components: Seq<Seq<PieceView>>, allow: bool)
    requires
        forall|i: int|
            0 <= i < components.len() ==> {
                let pieces = #[trigger] components[i];
                &&& normal(pieces)
                &&& clean_component(render(pieces))
                &&& all_literal(pieces) ==> byte_len(render(pieces)) <= MAX_NAME_LEN
                &&& allow || level_free(pieces)
            },
    ensures
        parse_parts(rendered(components), allow) == Ok::<
            Seq<Seq<PieceView>>,
            TemplateErrorView,
        >(components),
    decreases components.len(),
{
    let parts = rendered(components);
    if components.len() == 0 {
        assert(components =~= Seq::<Seq<PieceView>>::empty());
    } else {
        let front = components.drop_last();
        let last = components[components.len() - 1];
        assert forall|i: int| 0 <= i < front.len() implies {
            let pieces = #[trigger] front[i];
            &&& normal(pieces)
            &&& clean_component(render(pieces))
            &&& all_literal(pieces) ==> byte_len(render(pieces)) <= MAX_NAME_LEN
            &&& allow || level_free(pieces)
        } by {
            assert(front[i] == components[i]);
        }
        lemma_parts_parse(front, allow);
        assert(parts.drop_last() =~= rendered(front));
        assert(parts.last() == render(last));
        lemma_render_parses(
            last,
            Seq::empty(),
            component_offset(parts, parts.len() - 1),
            allow,
        );
        assert(flush(Seq::<char>::empty()) + last =~= last);
        assert(front.push(last) =~= components);
    }
}

/// Components in normal form with clean texts are parsed back from their
/// joined text.
proof fn lemma_components_parse(components: Seq<Seq<PieceView>>, allow: bool)
    requires
        components.len() > 0,
        has_piece(components, PieceView::Name),
        forall|i: int|
            0 <= i < components.len() ==> {
                let pieces = #[trigger] components[i];
                &&& normal(pieces)
                &&& clean_component(render(pieces))
                &&& all_literal(pieces) ==> byte_len(render(pieces)) <= MAX_NAME_LEN
                &&& allow || level_free(pieces)
            },
    ensures
        parse_template(join(rendered(components), seq!['/']), allow) == Ok::<
            TemplateView,
            TemplateErrorView,
        >(TemplateView { raw: join(rendered(components), seq!['/']), components }),
{
    let parts = rendered(components);
    let raw = join(parts, seq!['/']);
    lemma_parts_parse(components, allow);
    assert forall|i: int| 0 <= i < parts.len() implies clean_component(#[trigger] parts[i]) by {
        assert(parts[i] == render(components[i]));
    }
    crate::text::lemma_split_join(parts, '/');
    assert(clean_component(parts[0]));
    assert(clean_component(parts[parts.len() - 1]));
    crate::text::lemma_join_ends(parts, seq!['/']);
    assert(parts[0].contains(raw[0]));
    assert(parts.last().contains(raw.last()));
    if raw.contains('\0') {
        crate::text::lemma_join_within(parts, '/', '\0');
        let i = choose|i: int| 0 <= i < parts.len() && (#[trigger] parts[i]).contains('\0');
        assert(clean_component(parts[i]));
    }
}

/// The text of a piece with the member name put in.
pub open spec fn named_text(name: Seq<char>) -> spec_fn(PieceView) -> Seq<char> {
    |p: PieceView|
        match p {
            PieceView::Literal(text) => text,
            PieceView::Name => name,
            PieceView::Level(level) => level_text(level),
        }
}

/// The components with the member name put in.
pub open spec fn filled(t: TemplateView, name: Seq<char>) -> Seq<Seq<char>> {
    t.components.map_values(|c: Seq<PieceView>| put_together(named_text(name), c))
}

/// The first part from `from` on that is longer than `NAME_MAX`, or the
/// number of parts.
pub open spec fn first_long(parts: Seq<Seq<char>>, from: int) -> int
    decreases parts.len() - from,
{
    if from < 0 || from >= parts.len() {
        parts.len() as int
    } else if byte_len(parts[from]) > MAX_NAME_LEN {
        from
    } else {
        first_long(parts, from + 1)
    }
}

/// A length as reported: no more than what `usize` holds.
pub open spec fn reported(n: nat) -> usize {
    if n > usize::MAX {
        usize::MAX
    } else {
        n as usize
    }
}

/// What interpolating a member name gives.
pub open spec fn interpolated(t: TemplateView, name: Seq<char>) -> Result<
    Seq<Seq<char>>,
    InterpolateError,
> {
    let parts = filled(t, name);
    let long = first_long(parts, 0);
    if long < parts.len() {
        Err(InterpolateError::ComponentTooLong(byte_len(parts[long]) as usize))
    } else if byte_len(join(parts, seq!['/'])) > MAX_PATH_LEN {
        Err(InterpolateError::PathTooLong(reported(byte_len(join(parts, seq!['/'])))))
    } else {
        Ok(parts)
    }
}

/// Interpolating a valid name into a valid template introduces neither new
/// path components nor traversal: there are as many components as in the
/// template, none is empty, `.` or `..` or holds a separator, and the joined
/// path splits into exactly them.
pub proof fn law_names_never_introduce_traversal(t: TemplateView, name: Seq<char>)
    requires
        valid_template(t),
        bound_template(t),
        valid_name(name),
    ensures
        interpolated(t, name) matches Ok(parts) ==> {
            &&& parts.len() == split(t.raw, '/').len()
            &&& forall|i: int|
                0 <= i < parts.len() ==> clean_component(#[trigger] parts[i]) && byte_len(parts[i])
                    <= MAX_NAME_LEN
            &&& split(join(parts, seq!['/']), '/') == parts
            &&& byte_len(join(parts, seq!['/'])) <= MAX_PATH_LEN
        },
{
    lemma_template_components(t.raw, true);
    lemma_name_is_safe(name);
    let parts = filled(t, name);
    let f = named_text(name);
    assert forall|i: int| 0 <= i < parts.len() implies clean_component(#[trigger] parts[i]) by {
        let pieces = t.components[i];
        assert(level_free(pieces));
        assert forall|k: int| 0 <= k < pieces.len() && !(pieces[k] is Literal) implies safe_text(
            #[trigger] f(pieces[k]),
        ) by {
            assert(!(pieces[k] is Level));
        }
        lemma_put_together_clean(f, pieces);
    }
    crate::text::lemma_split_join(parts, '/');
    if interpolated(t, name) is Ok {
        assert forall|i: int| 0 <= i < parts.len() implies byte_len(#[trigger] parts[i])
            <= MAX_NAME_LEN by {
            lemma_first_long(parts, 0);
        }
    }
}

proof fn lemma_first_long(parts: Seq<Seq<char>>, from: int)
    requires
        0 <= from <= parts.len(),
    ensures
        from <= first_long(parts, from) <= parts.len(),
        forall|i: int|
            from <= i < first_long(parts, from) ==> byte_len(#[trigger] parts[i]) <= MAX_NAME_LEN,
    decreases parts.len() - from,
{
    if from < parts.len() && byte_len(parts[from]) <= MAX_NAME_LEN {
        lemma_first_long(parts, from + 1);
    }
}

/// The text of a piece with the level names put in.
pub open spec fn levelled_text(levels: Seq<Seq<char>>) -> spec_fn(PieceView) -> Seq<char> {
    |p: PieceView|
        match p {
            PieceView::Literal(text) => text,
            PieceView::Name => name_placeholder(),
            PieceView::Level(level) => levels[level as int],
        }
}

/// The pieces with the level names put in as literals, adjacent literals
/// joined.
pub open spec fn bind_pieces(pieces: Seq<PieceView>, levels: Seq<Seq<char>>) -> Seq<PieceView>
    decreases pieces.len(),
{
    if pieces.len() == 0 {
        Seq::empty()
    } else {
        let front = bind_pieces(pieces.drop_last(), levels);
        if pieces.last() is Name {
            front.push(PieceView::Name)
        } else {
            append_literal(front, levelled_text(levels)(pieces.last()))
        }
    }
}

/// The pieces with `text` added to the literal at the end, or as one.
pub open spec fn append_literal(front: Seq<PieceView>, text: Seq<char>) -> Seq<PieceView> {
    if front.len() > 0 && front.last() is Literal {
        front.update(
            front.len() - 1,
            PieceView::Literal(front.last()->Literal_0 + text),
        )
    } else {
        front.push(PieceView::Literal(text))
    }
}

/// The components with the level names put in.
pub open spec fn bind_components(
    components: Seq<Seq<PieceView>>,
    levels: Seq<Seq<char>>,
) -> Seq<Seq<PieceView>> {
    components.map_values(|c: Seq<PieceView>| bind_pieces(c, levels))
}

/// The first component from `from` on without `{name}` that is longer than
/// `NAME_MAX`, or the number of components.
pub open spec fn first_long_literal(components: Seq<Seq<PieceView>>, from: int) -> int
    decreases components.len() - from,
{
    if from < 0 || from >= components.len() {
        components.len() as int
    } else if !components[from].contains(PieceView::Name) && byte_len(render(components[from]))
        > MAX_NAME_LEN {
        from
    } else {
        first_long_literal(components, from + 1)
    }
}

/// What substituting the level names gives.
pub open spec fn bind_template(t: TemplateView, levels: Seq<Seq<char>>) -> Result<
    TemplateView,
    InterpolateError,
> {
    let components = bind_components(t.components, levels);
    let long = first_long_literal(components, 0);
    if long < components.len() {
        Err(InterpolateError::ComponentTooLong(byte_len(render(components[long])) as usize))
    } else {
        Ok(TemplateView { raw: join(rendered(components), seq!['/']), components })
    }
}

/// Whether every level that the template refers to is below `n`.
pub open spec fn levels_below(components: Seq<Seq<PieceView>>, n: nat) -> bool {
    forall|i: int, j: int|
        0 <= i < components.len() && 0 <= j < components[i].len() ==> match #[trigger] components[i][j] {
            PieceView::Level(level) => level < n,
            _ => true,
        }
}

proof fn lemma_append_literal(front: Seq<PieceView>, text: Seq<char>)
    requires
        normal(front),
        level_free(front),
        text.len() > 0,
        brace_free(text),
    ensures
        normal(append_literal(front, text)),
        level_free(append_literal(front, text)),
        render(append_literal(front, text)) == render(front) + text,
        append_literal(front, text).contains(PieceView::Name) == front.contains(PieceView::Name),
{
    let f = |p: PieceView| piece_text(p);
    let all = append_literal(front, text);
    if front.len() > 0 && front.last() is Literal {
        let head = front.drop_last();
        let old_text = front.last()->Literal_0;
        assert(front[front.len() - 1] == front.last());
        assert(all.drop_last() =~= head);
        assert(render(all) =~= render(front) + text);
        assert(brace_free(old_text + text));
        assert forall|i: int| 0 <= i < all.len() implies match #[trigger] all[i] {
            PieceView::Literal(text) => text.len() > 0 && brace_free(text),
            PieceView::Name => true,
            PieceView::Level(level) => level < 2,
        } by {
            if i < head.len() {
                assert(all[i] == front[i]);
            }
        }
        assert forall|i: int| 0 <= i < all.len() - 1 implies !((#[trigger] all[i]) is Literal && all[i
            + 1] is Literal) by {
            assert(all[i] == front[i]);
            assert(front[i + 1] is Literal == all[i + 1] is Literal);
        }
        assert forall|i: int| 0 <= i < all.len() implies !((#[trigger] all[i]) is Level) by {
            if i < head.len() {
                assert(all[i] == front[i]);
            }
        }
        if front.contains(PieceView::Name) {
            let k = choose|k: int| 0 <= k < front.len() && front[k] == PieceView::Name;
            assert(all[k] == PieceView::Name);
        }
        if all.contains(PieceView::Name) {
            let k = choose|k: int| 0 <= k < all.len() && all[k] == PieceView::Name;
            assert(front[k] == PieceView::Name);
        }
    } else {
        assert(all.drop_last() =~= front);
        assert forall|i: int| 0 <= i < all.len() implies match #[trigger] all[i] {
            PieceView::Literal(text) => text.len() > 0 && brace_free(text),
            PieceView::Name => true,
            PieceView::Level(level) => level < 2,
        } by {
            if i < front.len() {
                assert(all[i] == front[i]);
            }
        }
        assert forall|i: int| 0 <= i < all.len() - 1 implies !((#[trigger] all[i]) is Literal && all[i
            + 1] is Literal) by {
            assert(all[i] == front[i]);
            if i + 1 < front.len() {
                assert(all[i + 1] == front[i + 1]);
            }
        }
        assert forall|i: int| 0 <= i < all.len() implies !((#[trigger] all[i]) is Level) by {
            if i < front.len() {
                assert(all[i] == front[i]);
            }
        }
        if front.contains(PieceView::Name) {
            let k = choose|k: int| 0 <= k < front.len() && front[k] == PieceView::Name;
            assert(all[k] == PieceView::Name);
        }
        if all.contains(PieceView::Name) {
            let k = choose|k: int| 0 <= k < all.len() && all[k] == PieceView::Name;
            assert(front[k] == PieceView::Name);
        }
    }
}

/// Bound pieces are in normal form without level placeholders, and read as
/// the pieces with the level names put in.
proof fn lemma_bind_pieces(pieces: Seq<PieceView>, levels: Seq<Seq<char>>)
    requires
        normal(pieces),
        forall|i: int| 0 <= i < levels.len() ==> valid_name(#[trigger] levels[i]),
        forall|i: int|
            0 <= i < pieces.len() ==> match #[trigger] pieces[i] {
                PieceView::Level(level) => level < levels.len(),
                _ => true,
            },
    ensures
        normal(bind_pieces(pieces, levels)),
        level_free(bind_pieces(pieces, levels)),
        render(bind_pieces(pieces, levels)) == put_together(levelled_text(levels), pieces),
        bind_pieces(pieces, levels).contains(PieceView::Name) == pieces.contains(PieceView::Name),
    decreases pieces.len(),
{
    if pieces.len() > 0 {
        let front = pieces.drop_last();
        lemma_normal_front(pieces);
        assert forall|i: int| 0 <= i < front.len() implies match #[trigger] front[i] {
            PieceView::Level(level) => level < levels.len(),
            _ => true,
        } by {
            assert(front[i] == pieces[i]);
        }
        lemma_bind_pieces(front, levels);
        let b = bind_pieces(front, levels);
        let last = pieces[pieces.len() - 1];
        let all = bind_pieces(pieces, levels);
        if pieces.contains(PieceView::Name) && !(last is Name) {
            let k = choose|k: int| 0 <= k < pieces.len() && pieces[k] == PieceView::Name;
            assert(front[k] == PieceView::Name);
        }
        if front.contains(PieceView::Name) {
            let k = choose|k: int| 0 <= k < front.len() && front[k] == PieceView::Name;
            assert(pieces[k] == PieceView::Name);
        }
        if last is Name {
            assert(all.drop_last() =~= b);
            assert(all[all.len() - 1] == PieceView::Name);
            assert forall|i: int| 0 <= i < all.len() implies match #[trigger] all[i] {
                PieceView::Literal(text) => text.len() > 0 && brace_free(text),
                PieceView::Name => true,
                PieceView::Level(level) => level < 2,
            } by {
                if i < b.len() {
                    assert(all[i] == b[i]);
                }
            }
            assert forall|i: int| 0 <= i < all.len() - 1 implies !((#[trigger] all[i]) is Literal
                && all[i + 1] is Literal) by {
                assert(all[i] == b[i]);
                if i + 1 < b.len() {
                    assert(all[i + 1] == b[i + 1]);
                }
            }
            assert forall|i: int| 0 <= i < all.len() implies !((#[trigger] all[i]) is Level) by {
                if i < b.len() {
                    assert(all[i] == b[i]);
                }
            }
            assert(pieces[pieces.len() - 1] == PieceView::Name);
        } else {
            let text = levelled_text(levels)(last);
            if last is Level {
                let l = last->Level_0 as int;
                assert(valid_name(levels[l]));
                lemma_name_is_safe(levels[l]);
            }
            lemma_append_literal(b, text);
        }
    }
}

/// A piece without levels that is all literal has no name.
proof fn lemma_literal_without_name(pieces: Seq<PieceView>)
    requires
        level_free(pieces),
    ensures
        all_literal(pieces) == !pieces.contains(PieceView::Name),
{
    if !pieces.contains(PieceView::Name) {
        assert forall|i: int| 0 <= i < pieces.len() implies (#[trigger] pieces[i]) is Literal by {
            assert(pieces[i] != PieceView::Name);
            assert(!(pieces[i] is Level));
        }
    }
}

proof fn lemma_first_long_literal(components: Seq<Seq<PieceView>>, from: int)
    requires
        0 <= from <= components.len(),
    ensures
        from <= first_long_literal(components, from) <= components.len(),
        forall|i: int|
            from <= i < first_long_literal(components, from) ==> (
            #[trigger] components[i]).contains(PieceView::Name) || byte_len(render(components[i]))
                <= MAX_NAME_LEN,
    decreases components.len() - from,
{
    if from < components.len() && (components[from].contains(PieceView::Name) || byte_len(
        render(components[from]),
    ) <= MAX_NAME_LEN) {
        lemma_first_long_literal(components, from + 1);
    }
}

/// Binding the levels of a valid template gives the template that its text
/// parses to outside a group set; in particular `{name}` is its only
/// placeholder.
pub proof fn lemma_bound_is_parsed(t: TemplateView, levels: Seq<Seq<char>>)
    requires
        valid_template(t),
        levels_below(t.components, levels.len()),
        forall|i: int| 0 <= i < levels.len() ==> valid_name(#[trigger] levels[i]),
    ensures
        bind_template(t, levels) matches Ok(b) ==> {
            &&& parse_template(b.raw, false) == Ok::<TemplateView, TemplateErrorView>(b)
            &&& bound_template(b)
            &&& b.components.len() == t.components.len()
        },
{
    lemma_template_components(t.raw, true);
    let components = bind_components(t.components, levels);
    let f = levelled_text(levels);
    if bind_template(t, levels) is Ok {
        lemma_first_long_literal(components, 0);
        assert forall|i: int| 0 <= i < components.len() implies {
            let pieces = #[trigger] components[i];
            &&& normal(pieces)
            &&& clean_component(render(pieces))
            &&& all_literal(pieces) ==> byte_len(render(pieces)) <= MAX_NAME_LEN
            &&& level_free(pieces)
        } by {
            let pieces = t.components[i];
            assert forall|k: int| 0 <= k < pieces.len() implies match #[trigger] pieces[k] {
                PieceView::Level(level) => level < levels.len(),
                _ => true,
            } by {
                assert(t.components[i][k] == pieces[k]);
            }
            lemma_bind_pieces(pieces, levels);
            assert forall|k: int| 0 <= k < pieces.len() && !(pieces[k] is Literal) implies safe_text(
                #[trigger] f(pieces[k]),
            ) by {
                match pieces[k] {
                    PieceView::Level(level) => {
                        assert(valid_name(levels[level as int]));
                        lemma_name_is_safe(levels[level as int]);
                    },
                    _ => {
                        lemma_placeholder_is_safe(PieceView::Name);
                    },
                }
            }
            lemma_put_together_clean(f, pieces);
            lemma_literal_without_name(components[i]);
            assert(components[i].contains(PieceView::Name) || byte_len(render(components[i]))
                <= MAX_NAME_LEN);
        }
        let k = choose|k: int|
            0 <= k < t.components.len() && (#[trigger] t.components[k]).contains(PieceView::Name);
        assert(components[k].contains(PieceView::Name)) by {
            let pieces = t.components[k];
            assert forall|j: int| 0 <= j < pieces.len() implies match #[trigger] pieces[j] {
                PieceView::Level(level) => level < levels.len(),
                _ => true,
            } by {
                assert(t.components[k][j] == pieces[j]);
            }
            lemma_bind_pieces(pieces, levels);
        }
        lemma_components_parse(components, false);
    }
}

/// Whether `what` stands somewhere in the text.
pub open spec fn occurs(what: Seq<char>, s: Seq<char>) -> bool {
    exists|i: int| 0 <= i <= s.len() && what.is_prefix_of(#[trigger] s.skip(i))
}

/// What stands in the end of a text stands in the text.
proof fn lemma_occurs_after(what: Seq<char>, s: Seq<char>, n: int)
    requires
        0 <= n <= s.len(),
        occurs(what, s.skip(n)),
    ensures
        occurs(what, s),
{
    let t = s.skip(n);
    let i = choose|i: int| 0 <= i <= t.len() && what.is_prefix_of(#[trigger] t.skip(i));
    assert(t.skip(i) =~= s.skip(n + i));
}

/// What stands in a part of a text stands in the text.
proof fn lemma_occurs_in_part(what: Seq<char>, s: Seq<char>, sep: char, i: int)
    requires
        0 <= i < split(s, sep).len(),
        occurs(what, split(s, sep)[i]),
    ensures
        occurs(what, s),
{
    let part = split(s, sep)[i];
    let at = crate::text::lemma_split_part_place(s, sep, i);
    let k = choose|k: int| 0 <= k <= part.len() && what.is_prefix_of(#[trigger] part.skip(k));
    let rest = s.skip(at + k);
    assert(part.skip(k) =~= rest.take(part.len() - k));
    assert(what =~= rest.take(what.len() as int));
}

/// Where no level placeholder stands, it does not matter whether one is allowed.
proof fn lemma_parse_pieces_same(rest: Seq<char>, literal: Seq<char>, offset: nat)
    requires
        !occurs(level_text(0), rest),
        !occurs(level_text(1), rest),
    ensures
        parse_pieces(rest, literal, offset, true) == parse_pieces(rest, literal, offset, false),
    decreases rest.len(),
{
    if rest.len() > 0 {
        assert(rest.skip(0) =~= rest);
        let n: int = if rest[0] != '{' && rest[0] != '}' {
            1
        } else if name_placeholder().is_prefix_of(rest) {
            6
        } else {
            0
        };
        if n > 0 {
            if occurs(level_text(0), rest.skip(n)) {
                lemma_occurs_after(level_text(0), rest, n);
            }
            if occurs(level_text(1), rest.skip(n)) {
                lemma_occurs_after(level_text(1), rest, n);
            }
            if n == 1 {
                assert(rest.skip(1) =~= rest.drop_first());
                lemma_parse_pieces_same(
                    rest.drop_first(),
                    literal.push(rest[0]),
                    offset + char_width(rest[0]),
                );
            } else {
                lemma_parse_pieces_same(rest.skip(6), Seq::empty(), offset + 6);
            }
        }
    }
}

proof fn lemma_parse_parts_same(parts: Seq<Seq<char>>)
    requires
        forall|i: int|
            0 <= i < parts.len() ==> !occurs(level_text(0), #[trigger] parts[i]) && !occurs(
                level_text(1),
                parts[i],
            ),
    ensures
        parse_parts(parts, true) == parse_parts(parts, false),
    decreases parts.len(),
{
    if parts.len() > 0 {
        let front = parts.drop_last();
        assert forall|i: int| 0 <= i < front.len() implies !occurs(level_text(0), #[trigger] front[i])
            && !occurs(level_text(1), front[i]) by {
            assert(front[i] == parts[i]);
        }
        lemma_parse_parts_same(front);
        let last = parts[parts.len() - 1];
        lemma_parse_pieces_same(last, Seq::empty(), component_offset(parts, parts.len() - 1));
    }
}

/// A text without `{group}` and `{subgroup}` is the same template, or fails in
/// the same way, in a group set and outside one, and refers to no level.
pub proof fn law_plain_templates_parse_alike(raw: Seq<char>)
    requires
        !occurs(level_text(0), raw),
        !occurs(level_text(1), raw),
    ensures
        parse_template(raw, true) == parse_template(raw, false),
        parse_template(raw, true) matches Ok(t) ==> bound_template(t) && levels_below(t.components, 0),
{
    let parts = split(raw, '/');
    assert forall|i: int| 0 <= i < parts.len() implies !occurs(level_text(0), #[trigger] parts[i])
        && !occurs(level_text(1), parts[i]) by {
        if occurs(level_text(0), parts[i]) {
            lemma_occurs_in_part(level_text(0), raw, '/', i);
        }
        if occurs(level_text(1), parts[i]) {
            lemma_occurs_in_part(level_text(1), raw, '/', i);
        }
    }
    lemma_parse_parts_same(parts);
    if parse_template(raw, false) is Ok {
        lemma_template_components(raw, false);
        let components = parse_template(raw, false)->Ok_0.components;
        assert forall|i: int, j: int|
            0 <= i < components.len() && 0 <= j < components[i].len() implies match #[trigger] components[i][j] {
            PieceView::Level(level) => level < 0,
            _ => true,
        } by {
            assert(level_free(components[i]));
        }
    }
}

/// The text with the name in place of every `{name}`.
pub open spec fn named(raw: Seq<char>, name: Seq<char>) -> Seq<char>
    decreases raw.len(),
{
    if raw.len() == 0 {
        Seq::empty()
    } else if seq!['{', 'n', 'a', 'm', 'e', '}'].is_prefix_of(raw) {
        name + named(raw.skip(6), name)
    } else {
        seq![raw[0]] + named(raw.drop_first(), name)
    }
}

/// Whether a path is short enough: the whole of it, and each component.
pub open spec fn fits(path: Seq<char>) -> bool {
    byte_len(path) <= 4095 && forall|i: int|
        0 <= i < split(path, '/').len() ==> byte_len(#[trigger] split(path, '/')[i]) <= 255
}

/// Text that opens no placeholder stays.
proof fn lemma_named_text(text: Seq<char>, rest: Seq<char>, name: Seq<char>)
    requires
        forall|i: int| 0 <= i < text.len() ==> (#[trigger] text[i]) != '{',
    ensures
        named(text + rest, name) == text + named(rest, name),
    decreases text.len(),
{
    if text.len() == 0 {
        assert(text + rest =~= rest);
        assert(text + named(rest, name) =~= named(rest, name));
    } else {
        let whole = text + rest;
        assert(whole[0] == text[0]);
        assert(seq!['{', 'n', 'a', 'm', 'e', '}'][0] == '{');
        assert(whole.drop_first() =~= text.drop_first() + rest);
        assert forall|i: int| 0 <= i < text.drop_first().len() implies (
        #[trigger] text.drop_first()[i]) != '{' by {
            assert(text.drop_first()[i] == text[i + 1]);
        }
        lemma_named_text(text.drop_first(), rest, name);
        assert(named(whole, name) =~= text + named(rest, name));
    }
}

/// The text of pieces without levels, with the member name put in.
proof fn lemma_named_pieces(pieces: Seq<PieceView>, rest: Seq<char>, name: Seq<char>)
    requires
        normal(pieces),
        level_free(pieces),
    ensures
        named(render(pieces) + rest, name) == put_together(named_text(name), pieces) + named(
            rest,
            name,
        ),
    decreases pieces.len(),
{
    let f = named_text(name);
    if pieces.len() == 0 {
        assert(render(pieces) + rest =~= rest);
        assert(put_together(f, pieces) + named(rest, name) =~= named(rest, name));
    } else {
        let front = pieces.drop_last();
        let last = pieces[pieces.len() - 1];
        let whole = piece_text(last) + rest;
        lemma_normal_front(pieces);
        assert forall|k: int| 0 <= k < front.len() implies !(#[trigger] front[k] is Level) by {
            assert(front[k] == pieces[k]);
        }
        lemma_named_pieces(front, whole, name);
        match last {
            PieceView::Literal(text) => {
                lemma_named_text(text, rest, name);
            },
            PieceView::Name => {
                assert(seq!['{', 'n', 'a', 'm', 'e', '}'] =~= whole.take(6));
                assert(whole.skip(6) =~= rest);
            },
            PieceView::Level(_) => {},
        }
        assert(render(pieces) + rest =~= render(front) + whole);
        assert(put_together(f, pieces) + named(rest, name) =~= put_together(f, front) + (f(last)
            + named(rest, name)));
    }
}

/// The text of components without levels, with the member name put in.
proof fn lemma_named_components(
    components: Seq<Seq<PieceView>>,
    rest: Seq<char>,
    name: Seq<char>,
)
    requires
        forall|i: int|
            0 <= i < components.len() ==> normal(#[trigger] components[i]) && level_free(
                components[i],
            ),
    ensures
        named(join(rendered(components), seq!['/']) + rest, name) == join(
            components.map_values(|c: Seq<PieceView>| put_together(named_text(name), c)),
            seq!['/'],
        ) + named(rest, name),
    decreases components.len(),
{
    let sep = seq!['/'];
    let f = named_text(name);
    let put = |c: Seq<PieceView>| put_together(f, c);
    let texts = rendered(components);
    let filled = components.map_values(put);
    if components.len() == 0 {
        assert(join(texts, sep) + rest =~= rest);
        assert(join(filled, sep) + named(rest, name) =~= named(rest, name));
    } else if components.len() == 1 {
        lemma_named_pieces(components[0], rest, name);
    } else {
        let front = components.drop_last();
        let last = components[components.len() - 1];
        assert forall|i: int| 0 <= i < front.len() implies normal(#[trigger] front[i])
            && level_free(front[i]) by {
            assert(front[i] == components[i]);
        }
        assert(texts.drop_last() =~= rendered(front));
        assert(filled.drop_last() =~= front.map_values(put));
        let tail = render(last) + rest;
        lemma_named_components(front, sep + tail, name);
        lemma_named_text(sep, tail, name);
        lemma_named_pieces(last, rest, name);
        assert(join(texts, sep) + rest =~= join(rendered(front), sep) + (sep + tail));
        assert(join(filled, sep) + named(rest, name) =~= join(front.map_values(put), sep) + (sep + (
        put_together(f, last) + named(rest, name))));
    }
}

proof fn lemma_named_join(t: TemplateView, name: Seq<char>)
    requires
        valid_template(t),
        bound_template(t),
    ensures
        join(filled(t, name), seq!['/']) == named(t.raw, name),
{
    let empty = Seq::<char>::empty();
    lemma_template_components(t.raw, true);
    crate::text::lemma_join_split(t.raw, '/');
    assert(rendered(t.components) =~= split(t.raw, '/'));
    lemma_named_components(t.components, empty, name);
    assert(t.raw + empty =~= t.raw);
    let parts = filled(t, name);
    assert(join(parts, seq!['/']) + empty =~= join(parts, seq!['/']));
}

proof fn lemma_filled_clean(t: TemplateView, name: Seq<char>)
    requires
        valid_template(t),
        bound_template(t),
        valid_name(name),
    ensures
        split(join(filled(t, name), seq!['/']), '/') == filled(t, name),
{
    lemma_template_components(t.raw, true);
    lemma_name_is_safe(name);
    let parts = filled(t, name);
    let f = named_text(name);
    assert forall|i: int| 0 <= i < parts.len() implies clean_component(#[trigger] parts[i]) by {
        let pieces = t.components[i];
        assert(level_free(pieces));
        assert forall|k: int| 0 <= k < pieces.len() && !(pieces[k] is Literal) implies safe_text(
            #[trigger] f(pieces[k]),
        ) by {
            assert(!(pieces[k] is Level));
        }
        lemma_put_together_clean(f, pieces);
    }
    crate::text::lemma_split_join(parts, '/');
}

/// Interpolating a name puts it in place of every `{name}` of the template's
/// text, and changes nothing else: the path is the text so filled. A name can
/// be interpolated exactly if no component of that path and not the path
/// itself is too long.
pub proof fn law_names_are_substituted(t: TemplateView, name: Seq<char>)
    requires
        valid_template(t),
        bound_template(t),
        valid_name(name),
    ensures
        interpolated(t, name) matches Ok(parts) ==> join(parts, seq!['/']) == named(t.raw, name)
            && parts == split(named(t.raw, name), '/'),
        interpolated(t, name) is Ok <==> fits(named(t.raw, name)),
{
    lemma_named_join(t, name);
    lemma_filled_clean(t, name);
    let parts = filled(t, name);
    assert(parts == split(named(t.raw, name), '/'));
    lemma_first_long(parts, 0);
    let long = first_long(parts, 0);
    if long < parts.len() {
        lemma_long_part(parts, 0);
        assert(byte_len(split(named(t.raw, name), '/')[long]) > 255);
    }
}

proof fn lemma_long_part(parts: Seq<Seq<char>>, from: int)
    requires
        0 <= from <= parts.len(),
        first_long(parts, from) < parts.len(),
    ensures
        from <= first_long(parts, from),
        byte_len(parts[first_long(parts, from)]) > MAX_NAME_LEN,
    decreases parts.len() - from,
{
    if byte_len(parts[from]) <= MAX_NAME_LEN {
        lemma_long_part(parts, from + 1);
    }
}

/// The text with `levels[0]` in place of every `{group}` and `levels[1]` in
/// place of every `{subgroup}`.
pub open spec fn substituted(raw: Seq<char>, levels: Seq<Seq<char>>) -> Seq<char>
    decreases raw.len(),
{
    if raw.len() == 0 {
        Seq::empty()
    } else if level_text(0).is_prefix_of(raw) {
        levels[0] + substituted(raw.skip(7), levels)
    } else if level_text(1).is_prefix_of(raw) {
        levels[1] + substituted(raw.skip(10), levels)
    } else {
        seq![raw[0]] + substituted(raw.drop_first(), levels)
    }
}

/// Text that opens no placeholder stays.
proof fn lemma_substituted_text(text: Seq<char>, rest: Seq<char>, levels: Seq<Seq<char>>)
    requires
        forall|i: int| 0 <= i < text.len() ==> (#[trigger] text[i]) != '{',
    ensures
        substituted(text + rest, levels) == text + substituted(rest, levels),
    decreases text.len(),
{
    if text.len() == 0 {
        assert(text + rest =~= rest);
        assert(text + substituted(rest, levels) =~= substituted(rest, levels));
    } else {
        let whole = text + rest;
        assert(whole[0] == text[0]);
        assert(level_text(0)[0] == '{' && level_text(1)[0] == '{');
        assert(whole.drop_first() =~= text.drop_first() + rest);
        assert forall|i: int| 0 <= i < text.drop_first().len() implies (
        #[trigger] text.drop_first()[i]) != '{' by {
            assert(text.drop_first()[i] == text[i + 1]);
        }
        lemma_substituted_text(text.drop_first(), rest, levels);
        assert(substituted(whole, levels) =~= text + substituted(rest, levels));
    }
}

/// The text of a piece, with the level names put in.
proof fn lemma_substituted_piece(p: PieceView, rest: Seq<char>, levels: Seq<Seq<char>>)
    requires
        match p {
            PieceView::Literal(text) => brace_free(text),
            PieceView::Name => true,
            PieceView::Level(level) => level < 2,
        },
    ensures
        substituted(piece_text(p) + rest, levels) == levelled_text(levels)(p) + substituted(
            rest,
            levels,
        ),
{
    let whole = piece_text(p) + rest;
    match p {
        PieceView::Literal(text) => {
            lemma_substituted_text(text, rest, levels);
        },
        PieceView::Name => {
            let tail = seq!['n', 'a', 'm', 'e', '}'];
            assert(whole[1] == 'n');
            assert(level_text(0)[1] == 'g' && level_text(1)[1] == 's');
            assert(whole.drop_first() =~= tail + rest);
            lemma_substituted_text(tail, rest, levels);
            assert(substituted(whole, levels) =~= name_placeholder() + substituted(rest, levels));
        },
        PieceView::Level(level) => {
            assert(level_text(level) =~= whole.take(level_text(level).len() as int));
            if level == 0 {
                assert(whole.skip(7) =~= rest);
            } else {
                assert(whole[1] == 's');
                assert(level_text(0)[1] == 'g');
                assert(whole.skip(10) =~= rest);
            }
        },
    }
}

/// The text of pieces, with the level names put in.
proof fn lemma_substituted_pieces(pieces: Seq<PieceView>, rest: Seq<char>, levels: Seq<Seq<char>>)
    requires
        normal(pieces),
    ensures
        substituted(render(pieces) + rest, levels) == put_together(levelled_text(levels), pieces)
            + substituted(rest, levels),
    decreases pieces.len(),
{
    let f = levelled_text(levels);
    if pieces.len() == 0 {
        assert(render(pieces) + rest =~= rest);
        assert(put_together(f, pieces) + substituted(rest, levels) =~= substituted(rest, levels));
    } else {
        let front = pieces.drop_last();
        let last = pieces[pieces.len() - 1];
        lemma_normal_front(pieces);
        lemma_substituted_pieces(front, piece_text(last) + rest, levels);
        lemma_substituted_piece(last, rest, levels);
        assert(render(pieces) + rest =~= render(front) + (piece_text(last) + rest));
        assert(put_together(f, pieces) + substituted(rest, levels) =~= put_together(f, front) + (f(
            last,
        ) + substituted(rest, levels)));
    }
}

/// The text of components, with the level names put in.
proof fn lemma_substituted_components(
    components: Seq<Seq<PieceView>>,
    rest: Seq<char>,
    levels: Seq<Seq<char>>,
)
    requires
        forall|i: int| 0 <= i < components.len() ==> normal(#[trigger] components[i]),
    ensures
        substituted(join(rendered(components), seq!['/']) + rest, levels) == join(
            components.map_values(|c: Seq<PieceView>| put_together(levelled_text(levels), c)),
            seq!['/'],
        ) + substituted(rest, levels),
    decreases components.len(),
{
    let sep = seq!['/'];
    let f = levelled_text(levels);
    let put = |c: Seq<PieceView>| put_together(f, c);
    let texts = rendered(components);
    let filled = components.map_values(put);
    if components.len() == 0 {
        assert(join(texts, sep) + rest =~= rest);
        assert(join(filled, sep) + substituted(rest, levels) =~= substituted(rest, levels));
    } else if components.len() == 1 {
        lemma_substituted_pieces(components[0], rest, levels);
    } else {
        let front = components.drop_last();
        let last = components[components.len() - 1];
        assert forall|i: int| 0 <= i < front.len() implies normal(#[trigger] front[i]) by {
            assert(front[i] == components[i]);
        }
        assert(texts.drop_last() =~= rendered(front));
        assert(filled.drop_last() =~= front.map_values(put));
        let tail = render(last) + rest;
        lemma_substituted_components(front, sep + tail, levels);
        lemma_substituted_text(sep, tail, levels);
        lemma_substituted_pieces(last, rest, levels);
        assert(join(texts, sep) + rest =~= join(rendered(front), sep) + (sep + tail));
        assert(join(filled, sep) + substituted(rest, levels) =~= join(front.map_values(put), sep) + (
        sep + (put_together(f, last) + substituted(rest, levels))));
    }
}

/// Binding the levels of a template puts their names in place of the level
/// placeholders, and nothing else: the bound text is the text with every
/// `{group}` and `{subgroup}` replaced, and it is the template that this text
/// parses to outside a group set, so `{name}` is its only placeholder.
pub proof fn law_levels_are_substituted(t: TemplateView, levels: Seq<Seq<char>>)
    requires
        valid_template(t),
        levels_below(t.components, levels.len()),
        forall|i: int| 0 <= i < levels.len() ==> valid_name(#[trigger] levels[i]),
    ensures
        bind_template(t, levels) matches Ok(b) ==> {
            &&& b.raw == substituted(t.raw, levels)
            &&& parse_template(b.raw, false) == Ok::<TemplateView, TemplateErrorView>(b)
            &&& bound_template(b)
        },
{
    let sep = seq!['/'];
    lemma_bound_is_parsed(t, levels);
    lemma_template_components(t.raw, true);
    crate::text::lemma_join_split(t.raw, '/');
    assert(rendered(t.components) =~= split(t.raw, '/'));
    lemma_substituted_components(t.components, Seq::empty(), levels);
    assert(t.raw + Seq::<char>::empty() =~= t.raw);
    let bound = bind_components(t.components, levels);
    let filled = t.components.map_values(
        |c: Seq<PieceView>| put_together(levelled_text(levels), c),
    );
    assert forall|i: int| 0 <= i < bound.len() implies #[trigger] rendered(bound)[i] == filled[i] by {
        let pieces = t.components[i];
        assert forall|k: int| 0 <= k < pieces.len() implies match #[trigger] pieces[k] {
            PieceView::Level(level) => level < levels.len(),
            _ => true,
        } by {
            assert(t.components[i][k] == pieces[k]);
        }
        lemma_bind_pieces(pieces, levels);
    }
    assert(rendered(bound) =~= filled);
    assert(join(filled, sep) + Seq::<char>::empty() =~= join(filled, sep));
}

impl Template {
    #[verifier::type_invariant]
    pub open spec fn valid(&self) -> bool {
        valid_template(self@)
    }

    /// Parses and validates a template for a statically configured group:
    /// `{name}` is the only placeholder.
    pub fn parse(raw: &str) -> (r: Result<Self, TemplateError>)
        ensures
            match r {
                Ok(t) => parse_template(raw@, false) == Ok::<TemplateView, TemplateErrorView>(t@)
                    && bound_template(t@),
                Err(e) => parse_template(raw@, false) == Err::<TemplateView, TemplateErrorView>(e@),
            },
    {
        proof {
            if parse_template(raw@, false) is Ok {
                lemma_template_components(raw@, false);
            }
        }
        Self::parse_inner(raw, false)
    }

    /// Parses and validates a template for a group set: `{name}`, `{group}`
    /// and `{subgroup}` are allowed.
    pub fn parse_for_set(raw: &str) -> (r: Result<Self, TemplateError>)
        ensures
            match r {
                Ok(t) => parse_template(raw@, true) == Ok::<TemplateView, TemplateErrorView>(t@),
                Err(e) => parse_template(raw@, true) == Err::<TemplateView, TemplateErrorView>(e@),
            },
    {
        Self::parse_inner(raw, true)
    }

    fn parse_inner(raw: &str, allow_group: bool) -> (r: Result<Self, TemplateError>)
        ensures
            match r {
                Ok(t) => parse_template(raw@, allow_group) == Ok::<TemplateView, TemplateErrorView>(
                    t@,
                ),
                Err(e) => parse_template(raw@, allow_group) == Err::<
                    TemplateView,
                    TemplateErrorView,
                >(e@),
            },
    {
        let v = chars_of(raw);
        if v.len() == 0 {
            return Err(TemplateError::Empty);
        }
        if contains_char(&v, '\0') {
            return Err(TemplateError::Nul);
        }
        if v[0] == '/' {
            return Err(TemplateError::Absolute);
        }
        if v[v.len() - 1] == '/' {
            return Err(TemplateError::TrailingSlash);
        }
        let total: usize = raw.as_bytes().len();
        let parts = split_text(raw, '/');
        let ghost views = split(raw@, '/');
        proof {
            crate::text::lemma_join_split(raw@, '/');
        }
        let mut components: Vec<Vec<Piece>> = Vec::new();
        let mut has_name = false;
        let mut done: usize = 0;
        let mut i: usize = 0;
        assert(component_views(components@) =~= Seq::<Seq<PieceView>>::empty());
        while i < parts.len()
            invariant
                i <= parts@.len(),
                views == texts(parts@),
                views == split(raw@, '/'),
                join(views, seq!['/']) == raw@,
                total == byte_len(raw@),
                done == byte_len(join(views.take(i as int), seq!['/'])),
                parse_parts(views.take(i as int), allow_group) == Ok::<
                    Seq<Seq<PieceView>>,
                    TemplateErrorView,
                >(component_views(components@)),
                components@.len() == i,
                has_name == has_piece(component_views(components@), PieceView::Name),
                raw@.len() > 0,
                !raw@.contains('\0'),
                raw@[0] != '/',
                raw@.last() != '/',
            decreases parts@.len() - i,
        {
            let ghost next = views.take(i + 1);
            let component = parts[i].as_str();
            proof {
                assert(next.drop_last() =~= views.take(i as int));
                assert(next.last() == component@);
                assert(next.take(next.len() - 1) =~= views.take(i as int));
                if i > 0 {
                    lemma_join_prefix_len(views, i as int);
                } else {
                    assert(views.take(1) =~= seq![component@]);
                    lemma_join_prefix_len(views, 1);
                }
                lemma_join_prefix_len(views, i + 1);
                crate::text::lemma_byte_len_push(join(views.take(i as int), seq!['/']), '/');
                assert(join(views.take(i as int), seq!['/']) + seq!['/'] =~= join(
                    views.take(i as int),
                    seq!['/'],
                ).push('/'));
                crate::text::lemma_byte_len_concat(
                    join(views.take(i as int), seq!['/']) + seq!['/'],
                    component@,
                );
            }
            let offset: usize = if i > 0 { done + 1 } else { 0 };
            proof {
                if parse_component_text(component@, offset as nat, allow_group) is Err {
                    lemma_parse_parts_error(views, i + 1, allow_group);
                }
            }
            if component.is_empty() {
                return Err(TemplateError::EmptyComponent);
            }
            proof {
                reveal_strlit(".");
                reveal_strlit("..");
                assert("."@ =~= seq!['.']);
                assert(".."@ =~= seq!['.', '.']);
            }
            if crate::text::same(component, ".") || crate::text::same(component, "..") {
                return Err(TemplateError::DotComponent(component.to_owned()));
            }
            let length: usize = component.as_bytes().len();
            let pieces = match parse_component(component, offset, allow_group) {
                Ok(pieces) => pieces,
                Err(e) => {
                    return Err(e);
                },
            };
            let (named, literal) = piece_kinds(&pieces);
            if literal && length > MAX_NAME_LEN {
                return Err(TemplateError::ComponentTooLong(length));
            }
            let ghost before = component_views(components@);
            let ghost added = piece_views(pieces@);
            components.push(pieces);
            proof {
                let now = component_views(components@);
                assert(now =~= before.push(added));
                if named {
                    assert(now[i as int].contains(PieceView::Name));
                }
                if has_piece(before, PieceView::Name) {
                    let k = choose|k: int|
                        0 <= k < before.len() && (#[trigger] before[k]).contains(PieceView::Name);
                    assert(now[k].contains(PieceView::Name));
                }
                if has_piece(now, PieceView::Name) {
                    let k = choose|k: int|
                        0 <= k < now.len() && (#[trigger] now[k]).contains(PieceView::Name);
                    if k < before.len() {
                        assert(before[k].contains(PieceView::Name));
                    }
                }
            }
            has_name = has_name || named;
            done = offset + length;
            i += 1;
        }
        assert(views.take(views.len() as int) =~= views);
        if !has_name {
            return Err(TemplateError::MissingName);
        }
        proof {
            lemma_static_template_valid(raw@, allow_group);
        }
        Ok(Template { raw: raw.to_owned(), components })
    }

    /// Returns the template as written in configuration.
    pub fn as_str(&self) -> (r: &str)
        ensures
            r@ == self@.raw,
    {
        self.raw.as_str()
    }
}

/// Whether there is a name among the pieces, and whether all are literals.
fn piece_kinds(pieces: &Vec<Piece>) -> (r: (bool, bool))
    ensures
        r.0 == piece_views(pieces@).contains(PieceView::Name),
        r.1 == all_literal(piece_views(pieces@)),
{
    let ghost views = piece_views(pieces@);
    let mut named = false;
    let mut literal = true;
    let mut i: usize = 0;
    while i < pieces.len()
        invariant
            i <= pieces@.len(),
            views == piece_views(pieces@),
            named == views.take(i as int).contains(PieceView::Name),
            literal == all_literal(views.take(i as int)),
        decreases pieces@.len() - i,
    {
        proof {
            assert(views.take(i + 1) =~= views.take(i as int).push(views[i as int]));
            let front = views.take(i as int);
            let now = views.take(i + 1);
            assert(now[i as int] == views[i as int]);
            if front.contains(PieceView::Name) {
                let k = choose|k: int| 0 <= k < front.len() && front[k] == PieceView::Name;
                assert(now[k] == PieceView::Name);
            }
            if now.contains(PieceView::Name) && !front.contains(PieceView::Name) {
                let k = choose|k: int| 0 <= k < now.len() && now[k] == PieceView::Name;
                if k < i {
                    assert(front[k] == PieceView::Name);
                }
            }
            if all_literal(now) {
                assert forall|k: int| 0 <= k < front.len() implies (#[trigger] front[k]) is Literal by {
                    assert(now[k] is Literal);
                }
            }
            if all_literal(front) && views[i as int] is Literal {
                assert forall|k: int| 0 <= k < now.len() implies (#[trigger] now[k]) is Literal by {
                    if k < i {
                        assert(front[k] is Literal);
                    }
                }
            }
        }
        match &pieces[i] {
            Piece::Literal(_) => {},
            Piece::Name => {
                named = true;
                literal = false;
            },
            Piece::Level(_) => {
                literal = false;
            },
        }
        i += 1;
    }
    assert(views.take(views.len() as int) =~= views);
    (named, literal)
}

impl Template {
    /// Interpolates `name`, returning the path components.
    pub fn components(&self, name: &Name) -> (r: Result<Vec<String>, InterpolateError>)
        requires
            bound_template(self@),
        ensures
            match r {
                Ok(parts) => interpolated(self@, name@) == Ok::<Seq<Seq<char>>, InterpolateError>(
                    texts(parts@),
                ),
                Err(e) => interpolated(self@, name@) == Err::<Seq<Seq<char>>, InterpolateError>(e),
            },
    {
        let ghost parts = filled(self@, name@);
        let mut out: Vec<String> = Vec::new();
        let mut total: usize = 0;
        let mut i: usize = 0;
        assert(texts(out@) =~= parts.take(0));
        while i < self.components.len()
            invariant
                i <= self.components@.len(),
                bound_template(self@),
                parts == filled(self@, name@),
                parts.len() == self.components@.len(),
                texts(out@) == parts.take(i as int),
                first_long(parts, 0) == first_long(parts, i as int),
                total == reported(byte_len(join(parts.take(i as int), seq!['/']))),
            decreases self.components@.len() - i,
        {
            assert(self@.components[i as int] == piece_views(self.components@[i as int]@));
            let component = fill_component(&self.components[i], name);
            let length: usize = component.as_str().as_bytes().len();
            assert(component@ == parts[i as int]);
            if length > MAX_NAME_LEN {
                return Err(InterpolateError::ComponentTooLong(length));
            }
            let ghost before = out@;
            let ghost text = component@;
            proof {
                let next = parts.take(i + 1);
                let front = join(parts.take(i as int), seq!['/']);
                assert(next.drop_last() =~= parts.take(i as int));
                crate::text::lemma_byte_len_push(front, '/');
                assert(front + seq!['/'] =~= front.push('/'));
                crate::text::lemma_byte_len_concat(front + seq!['/'], text);
                if i == 0 {
                    assert(next =~= seq![text]);
                }
            }
            if i > 0 {
                total = total.saturating_add(1);
            }
            total = total.saturating_add(length);
            out.push(component);
            assert(texts(out@) =~= texts(before).push(text));
            assert(parts.take(i + 1) =~= parts.take(i as int).push(text));
            i += 1;
        }
        assert(parts.take(parts.len() as int) =~= parts);
        if total > MAX_PATH_LEN {
            return Err(InterpolateError::PathTooLong(total));
        }
        Ok(out)
    }

    /// Interpolates `name`, returning the relative path joined with `/`.
    pub fn interpolate(&self, name: &Name) -> (r: Result<String, InterpolateError>)
        requires
            bound_template(self@),
        ensures
            match r {
                Ok(path) => interpolated(self@, name@) is Ok && path@ == join(
                    interpolated(self@, name@)->Ok_0,
                    seq!['/'],
                ),
                Err(e) => interpolated(self@, name@) == Err::<Seq<Seq<char>>, InterpolateError>(e),
            },
    {
        match self.components(name) {
            Ok(parts) => {
                proof {
                    reveal_strlit("/");
                    assert("/"@ =~= seq!['/']);
                }
                Ok(join_texts(&parts, "/"))
            },
            Err(e) => Err(e),
        }
    }

    /// The number of group set levels this template refers to: 0 if it uses
    /// neither `{group}` nor `{subgroup}`, 1 for `{group}` only, 2 if it uses
    /// `{subgroup}`.
    pub fn depth(&self) -> (r: usize)
        ensures
            levels_below(self@.components, r as nat),
            r > 0 ==> has_piece(self@.components, PieceView::Level((r - 1) as nat)),
            r == 0 <==> bound_template(self@),
            r <= 2,
    {
        let ghost components = self@.components;
        proof {
            use_type_invariant(self);
            lemma_template_components(self@.raw, true);
        }
        let r = if self.has_level(1) {
            2
        } else if self.has_level(0) {
            1
        } else {
            0
        };
        proof {
            assert forall|i: int, j: int| 0 <= i < components.len() && 0 <= j
                < components[i].len() implies match #[trigger] components[i][j] {
                PieceView::Level(level) => level < r,
                _ => true,
            } by {
                let p = components[i][j];
                assert(normal(components[i]));
                if p is Level {
                    assert(components[i].contains(p));
                    assert(has_piece(components, p));
                }
            }
            if r > 0 {
                let wanted = PieceView::Level((r - 1) as nat);
                let i = choose|i: int|
                    0 <= i < components.len() && (#[trigger] components[i]).contains(wanted);
                let j = choose|j: int| 0 <= j < components[i].len() && components[i][j] == wanted;
                assert(components[i][j] is Level);
                assert(!level_free(components[i]));
            } else {
                assert forall|i: int| 0 <= i < components.len() implies level_free(
                    #[trigger] components[i],
                ) by {
                    assert forall|j: int| 0 <= j < components[i].len() implies !((
                    #[trigger] components[i][j]) is Level) by {}
                }
            }
        }
        r
    }

    /// Whether the template contains the placeholder for `level`.
    pub fn has_level(&self, level: usize) -> (r: bool)
        ensures
            r == has_piece(self@.components, PieceView::Level(level as nat)),
    {
        let ghost wanted = PieceView::Level(level as nat);
        let ghost views = self@.components;
        let mut i: usize = 0;
        while i < self.components.len()
            invariant
                i <= self.components@.len(),
                views == component_views(self.components@),
                wanted == PieceView::Level(level as nat),
                forall|k: int| 0 <= k < i ==> !(#[trigger] views[k]).contains(wanted),
            decreases self.components@.len() - i,
        {
            let pieces = &self.components[i];
            assert(views[i as int] == piece_views(pieces@));
            let mut j: usize = 0;
            while j < pieces.len()
                invariant
                    j <= pieces@.len(),
                    i < self.components@.len(),
                    views == component_views(self.components@),
                    views == self@.components,
                    views[i as int] == piece_views(pieces@),
                    wanted == PieceView::Level(level as nat),
                    forall|k: int| 0 <= k < j ==> #[trigger] views[i as int][k] != wanted,
                decreases pieces@.len() - j,
            {
                assert(views[i as int][j as int] == pieces@[j as int]@);
                if let Piece::Level(found) = &pieces[j] {
                    if *found == level {
                        assert(views[i as int].contains(wanted));
                        return true;
                    }
                }
                j += 1;
            }
            i += 1;
        }
        false
    }

    /// The placeholder text for a level, for messages.
    pub fn level_placeholder(level: usize) -> (r: &'static str)
        requires
            level < crate::name::MAX_SET_DEPTH,
        ensures
            r@ == level_text(level as nat),
    {
        proof {
            reveal_strlit("{group}");
            reveal_strlit("{subgroup}");
            assert("{group}"@ =~= level_text(0));
            assert("{subgroup}"@ =~= level_text(1));
        }
        if level == 0 {
            "{group}"
        } else {
            "{subgroup}"
        }
    }

    /// Substitutes directory level names (`levels[0]` for `{group}`,
    /// `levels[1]` for `{subgroup}`), yielding a template whose only
    /// placeholder is `{name}`.
    pub fn bind_levels(&self, levels: &[Name]) -> (r: Result<Self, InterpolateError>)
        requires
            levels_below(self@.components, levels@.len()),
        ensures
            match r {
                Ok(t) => bind_template(self@, name_views(levels@)) == Ok::<
                    TemplateView,
                    InterpolateError,
                >(t@) && bound_template(t@) && t@.raw == substituted(
                    self@.raw,
                    name_views(levels@),
                ),
                Err(e) => bind_template(self@, name_views(levels@)) == Err::<
                    TemplateView,
                    InterpolateError,
                >(e),
            },
    {
        let ghost names = name_views(levels@);
        let ghost wanted = bind_components(self@.components, names);
        proof {
            use_type_invariant(self);
        }
        check_names(levels);
        let mut components: Vec<Vec<Piece>> = Vec::new();
        let mut raw_parts: Vec<String> = Vec::new();
        let mut i: usize = 0;
        assert(component_views(components@) =~= wanted.take(0));
        assert(texts(raw_parts@) =~= rendered(wanted).take(0));
        while i < self.components.len()
            invariant
                i <= self.components@.len(),
                levels_below(self@.components, levels@.len()),
                names == name_views(levels@),
                forall|k: int| 0 <= k < names.len() ==> valid_name(#[trigger] names[k]),
                valid_template(self@),
                wanted == bind_components(self@.components, names),
                wanted.len() == self.components@.len(),
                component_views(components@) == wanted.take(i as int),
                texts(raw_parts@) == rendered(wanted).take(i as int),
                first_long_literal(wanted, 0) == first_long_literal(wanted, i as int),
            decreases self.components@.len() - i,
        {
            let ghost pieces = self@.components[i as int];
            proof {
                assert(pieces == piece_views(self.components@[i as int]@));
                lemma_template_components(self@.raw, true);
                assert(normal(pieces));
                assert forall|k: int| 0 <= k < pieces.len() implies match #[trigger] pieces[k] {
                    PieceView::Level(level) => level < names.len(),
                    _ => true,
                } by {
                    assert(self@.components[i as int][k] == pieces[k]);
                }
                lemma_bind_pieces(pieces, names);
                assert(wanted[i as int] == bind_pieces(pieces, names));
            }
            let (bound, raw) = bind_component(&self.components[i], levels);
            let (named, _literal) = piece_kinds(&bound);
            let length: usize = raw.as_str().as_bytes().len();
            if !named && length > MAX_NAME_LEN {
                return Err(InterpolateError::ComponentTooLong(length));
            }
            let ghost before = components@;
            let ghost raws = raw_parts@;
            let ghost added = piece_views(bound@);
            let ghost text = raw@;
            components.push(bound);
            raw_parts.push(raw);
            assert(component_views(components@) =~= component_views(before).push(added));
            assert(texts(raw_parts@) =~= texts(raws).push(text));
            assert(wanted.take(i + 1) =~= wanted.take(i as int).push(added));
            assert(rendered(wanted).take(i + 1) =~= rendered(wanted).take(i as int).push(text));
            i += 1;
        }
        proof {
            assert(wanted.take(wanted.len() as int) =~= wanted);
            assert(rendered(wanted).take(wanted.len() as int) =~= rendered(wanted));
            reveal_strlit("/");
            assert("/"@ =~= seq!['/']);
            law_levels_are_substituted(self@, names);
            let b = bind_template(self@, names)->Ok_0;
            lemma_static_template_valid(b.raw, false);
        }
        Ok(Template { raw: join_texts(&raw_parts, "/"), components })
    }
}

/// The names in a list are valid.
fn check_names(names: &[Name])
    ensures
        forall|k: int| 0 <= k < name_views(names@).len() ==> valid_name(
            #[trigger] name_views(names@)[k],
        ),
{
    let mut i: usize = 0;
    while i < names.len()
        invariant
            i <= names@.len(),
            forall|k: int| 0 <= k < i ==> valid_name(#[trigger] name_views(names@)[k]),
        decreases names@.len() - i,
    {
        let name = &names[i];
        proof {
            use_type_invariant(name);
        }
        i += 1;
    }
}

/// One component with the member name put in.
fn fill_component(pieces: &Vec<Piece>, name: &Name) -> (r: String)
    requires
        level_free(piece_views(pieces@)),
    ensures
        r@ == put_together(named_text(name@), piece_views(pieces@)),
{
    let ghost views = piece_views(pieces@);
    let ghost f = named_text(name@);
    let mut component = String::new();
    let mut i: usize = 0;
    while i < pieces.len()
        invariant
            i <= pieces@.len(),
            views == piece_views(pieces@),
            f == named_text(name@),
            level_free(views),
            component@ == put_together(f, views.take(i as int)),
        decreases pieces@.len() - i,
    {
        proof {
            assert(views.take(i + 1).drop_last() =~= views.take(i as int));
            assert(views.take(i + 1).last() == pieces@[i as int]@);
            assert(!(views[i as int] is Level));
        }
        match &pieces[i] {
            Piece::Literal(s) => {
                component.append(s.as_str());
            },
            Piece::Name => {
                component.append(name.as_str());
            },
            Piece::Level(_) => {},
        }
        i += 1;
    }
    assert(views.take(views.len() as int) =~= views);
    component
}

/// One component with the level names put in, and its text.
fn bind_component(pieces: &Vec<Piece>, levels: &[Name]) -> (r: (Vec<Piece>, String))
    requires
        normal(piece_views(pieces@)),
        forall|k: int| 0 <= k < name_views(levels@).len() ==> valid_name(
            #[trigger] name_views(levels@)[k],
        ),
        forall|i: int|
            0 <= i < piece_views(pieces@).len() ==> match #[trigger] piece_views(pieces@)[i] {
                PieceView::Level(level) => level < levels@.len(),
                _ => true,
            },
    ensures
        piece_views(r.0@) == bind_pieces(piece_views(pieces@), name_views(levels@)),
        r.1@ == render(piece_views(r.0@)),
{
    let ghost views = piece_views(pieces@);
    let ghost names = name_views(levels@);
    let ghost f = levelled_text(names);
    let mut bound: Vec<Piece> = Vec::new();
    let mut raw = String::new();
    let mut i: usize = 0;
    proof {
        reveal_strlit("{name}");
        assert("{name}"@ =~= name_placeholder());
        assert(piece_views(bound@) =~= Seq::<PieceView>::empty());
    }
    while i < pieces.len()
        invariant
            i <= pieces@.len(),
            views == piece_views(pieces@),
            names == name_views(levels@),
            f == levelled_text(names),
            "{name}"@ == name_placeholder(),
            forall|i: int|
                0 <= i < views.len() ==> match #[trigger] views[i] {
                    PieceView::Level(level) => level < levels@.len(),
                    _ => true,
                },
            piece_views(bound@) == bind_pieces(views.take(i as int), names),
            raw@ == put_together(f, views.take(i as int)),
        decreases pieces@.len() - i,
    {
        let ghost before = piece_views(bound@);
        let ghost p = views[i as int];
        proof {
            assert(views.take(i + 1).drop_last() =~= views.take(i as int));
            assert(views.take(i + 1).last() == pieces@[i as int]@);
            assert(p == pieces@[i as int]@);
        }
        match &pieces[i] {
            Piece::Name => {
                raw.append("{name}");
                bound.push(Piece::Name);
                assert(piece_views(bound@) =~= before.push(PieceView::Name));
            },
            Piece::Literal(text) => {
                raw.append(text.as_str());
                push_text(&mut bound, text.as_str());
            },
            Piece::Level(level) => {
                let text = levels[*level].as_str();
                assert(names[*level as int] == text@);
                raw.append(text);
                push_text(&mut bound, text);
            },
        }
        i += 1;
    }
    proof {
        assert(views.take(views.len() as int) =~= views);
        lemma_bind_pieces(views, names);
    }
    (bound, raw)
}

/// Adds text to the literal at the end, or as one.
fn push_text(bound: &mut Vec<Piece>, text: &str)
    ensures
        piece_views(final(bound)@) == append_literal(piece_views(old(bound)@), text@),
{
    let ghost before = piece_views(bound@);
    if let Some(last) = bound.pop() {
        let ghost front = bound@;
        assert(piece_views(front) =~= before.drop_last());
        assert(before.last() == last@);
        match last {
            Piece::Literal(s) => {
                let mut joined = s;
                joined.append(text);
                bound.push(Piece::Literal(joined));
                assert(piece_views(bound@) =~= append_literal(before, text@));
            },
            other => {
                bound.push(other);
                bound.push(Piece::Literal(text.to_owned()));
                assert(piece_views(bound@) =~= append_literal(before, text@));
            },
        }
    } else {
        bound.push(Piece::Literal(text.to_owned()));
        assert(piece_views(bound@) =~= append_literal(before, text@));
    }
}

impl TemplateErrorView {
    /// The text of the error.
    pub open spec fn text(self) -> Seq<char> {
        match self {
            TemplateErrorView::Empty => "template is empty"@,
            TemplateErrorView::Absolute => "template must be relative (must not begin with '/')"@,
            TemplateErrorView::TrailingSlash => "template must not end with '/'"@,
            TemplateErrorView::EmptyComponent => "template contains an empty path component"@,
            TemplateErrorView::DotComponent(s) => "template contains a '"@ + s
                + "' path component"@,
            TemplateErrorView::InvalidBrace { found, offset } => "template contains '"@ + found
                + "' at byte "@ + decimal(offset) + "; the only placeholder is {name}"@,
            TemplateErrorView::Nul => "template contains a NUL byte"@,
            TemplateErrorView::MissingName => "template must contain {name}"@,
            TemplateErrorView::GroupNotAllowed =>
                "{group} and {subgroup} are only allowed in group set templates"@,
            TemplateErrorView::MissingLevel(s) => "template must contain "@ + s,
            TemplateErrorView::ComponentTooLong(n) => "template component is "@ + decimal(n)
                + " bytes long; the maximum is "@ + decimal(MAX_NAME_LEN as nat),
        }
    }
}

impl TemplateError {
    /// Describes the error.
    pub fn message(&self) -> (r: String)
        ensures
            r@ == self@.text(),
    {
        let mut out = String::new();
        match self {
            TemplateError::Empty => out.append("template is empty"),
            TemplateError::Absolute => out.append(
                "template must be relative (must not begin with '/')",
            ),
            TemplateError::TrailingSlash => out.append("template must not end with '/'"),
            TemplateError::EmptyComponent => out.append(
                "template contains an empty path component",
            ),
            TemplateError::DotComponent(s) => {
                out.append("template contains a '");
                out.append(s.as_str());
                out.append("' path component");
            },
            TemplateError::InvalidBrace { found, offset } => {
                out.append("template contains '");
                out.append(found.as_str());
                out.append("' at byte ");
                push_decimal(&mut out, *offset as u64);
                out.append("; the only placeholder is {name}");
            },
            TemplateError::Nul => out.append("template contains a NUL byte"),
            TemplateError::MissingName => out.append("template must contain {name}"),
            TemplateError::GroupNotAllowed => out.append(
                "{group} and {subgroup} are only allowed in group set templates",
            ),
            TemplateError::MissingLevel(s) => {
                out.append("template must contain ");
                out.append(s);
            },
            TemplateError::ComponentTooLong(n) => {
                out.append("template component is ");
                push_decimal(&mut out, *n as u64);
                out.append(" bytes long; the maximum is ");
                push_decimal(&mut out, MAX_NAME_LEN as u64);
            },
        }
        assert(out@ =~= self@.text());
        out
    }
}

impl InterpolateError {
    /// The text of the error.
    pub open spec fn text(self) -> Seq<char> {
        match self {
            InterpolateError::ComponentTooLong(n) => "interpolated path component is "@ + decimal(
                n as nat,
            ) + " bytes long; the maximum is "@ + decimal(MAX_NAME_LEN as nat),
            InterpolateError::PathTooLong(n) => "interpolated path is "@ + decimal(n as nat)
                + " bytes long; the maximum is "@ + decimal(MAX_PATH_LEN as nat),
        }
    }

    /// Describes the error.
    pub fn message(&self) -> (r: String)
        ensures
            r@ == self.text(),
    {
        let mut out = String::new();
        match self {
            InterpolateError::ComponentTooLong(n) => {
                out.append("interpolated path component is ");
                push_decimal(&mut out, *n as u64);
                out.append(" bytes long; the maximum is ");
                push_decimal(&mut out, MAX_NAME_LEN as u64);
            },
            InterpolateError::PathTooLong(n) => {
                out.append("interpolated path is ");
                push_decimal(&mut out, *n as u64);
                out.append(" bytes long; the maximum is ");
                push_decimal(&mut out, MAX_PATH_LEN as u64);
            },
        }
        assert(out@ =~= self.text());
        out
    }
}

proof fn lemma_plain_pieces(rest: Seq<char>, literal: Seq<char>, offset: nat, allow: bool)
    requires
        !rest.contains('{'),
    ensures
        parse_pieces(rest, literal, offset, allow) matches Ok(pieces) ==> forall|i: int|
            0 <= i < pieces.len() ==> (#[trigger] pieces[i]) is Literal,
    decreases rest.len(),
{
    if rest.len() > 0 {
        let more = rest.drop_first();
        assert(rest[0] != '{');
        assert(!more.contains('{')) by {
            if more.contains('{') {
                let i = choose|i: int| 0 <= i < more.len() && more[i] == '{';
                assert(rest[i + 1] == '{');
            }
        }
        lemma_plain_pieces(more, literal.push(rest[0]), offset + char_width(rest[0]), allow);
        if rest[0] == '}' {
            reveal_strlit("{name}");
            reveal_strlit("{group}");
            reveal_strlit("{subgroup}");
            assert(name_placeholder()[0] == '{');
            assert(level_text(0)[0] == '{');
            assert(level_text(1)[0] == '{');
        }
    }
}

proof fn lemma_accepted_part(parts: Seq<Seq<char>>, allow: bool, i: int)
    requires
        parse_parts(parts, allow) is Ok,
        0 <= i < parts.len(),
    ensures
        parse_parts(parts, allow)->Ok_0.len() == parts.len(),
        parts[i].len() > 0,
        parts[i] != seq!['.'],
        parts[i] != seq!['.', '.'],
        !parts[i].contains('{') ==> byte_len(parts[i]) <= 255 && forall|k: int|
            0 <= k < parse_parts(parts, allow)->Ok_0[i].len() ==> (
            #[trigger] parse_parts(parts, allow)->Ok_0[i][k]) is Literal,
    decreases parts.len(),
{
    let front = parts.drop_last();
    if front.len() > 0 {
        lemma_accepted_part(
            front,
            allow,
            if i < front.len() {
                i
            } else {
                0
            },
        );
    } else {
        assert(parse_parts(front, allow)->Ok_0.len() == 0);
    }
    let at = component_offset(parts, parts.len() - 1);
    let last = parse_component_text(parts.last(), at, allow)->Ok_0;
    assert(parse_parts(parts, allow)->Ok_0 == parse_parts(front, allow)->Ok_0.push(last));
    if i == front.len() {
        assert(parse_parts(parts, allow)->Ok_0[i] == last);
        if !parts[i].contains('{') {
            lemma_plain_pieces(parts[i], Seq::empty(), at, allow);
        }
    } else {
        assert(front[i] == parts[i]);
        assert(parse_parts(parts, allow)->Ok_0[i] == parse_parts(front, allow)->Ok_0[i]);
    }
}

/// A template that is accepted stands for its text, is relative, and has only
/// components that are not empty, `.` or `..`. One that is written out in full
/// fits into a directory entry. There is no NUL in it, and it has a placeholder.
pub proof fn law_accepted_templates_are_clean(raw: Seq<char>, allow: bool, i: int)
    requires
        0 <= i < split(raw, '/').len(),
    ensures
        parse_template(raw, allow) matches Ok(t) ==> {
            let part = split(raw, '/')[i];
            &&& t.raw == raw
            &&& raw.len() > 0 && raw[0] != '/' && raw.last() != '/' && !raw.contains('\0')
            &&& part.len() > 0 && part != seq!['.'] && part != seq!['.', '.']
            &&& !part.contains('{') ==> byte_len(part) <= 255
            &&& raw.contains('{')
        },
{
    if parse_template(raw, allow) is Ok {
        let parts = split(raw, '/');
        let t = parse_template(raw, allow)->Ok_0;
        lemma_accepted_part(parts, allow, i);
        let k = choose|k: int|
            0 <= k < t.components.len() && (#[trigger] t.components[k]).contains(PieceView::Name);
        lemma_accepted_part(parts, allow, k);
        if !parts[k].contains('{') {
            let n = choose|n: int|
                0 <= n < t.components[k].len() && t.components[k][n] == PieceView::Name;
            assert(parse_parts(parts, allow)->Ok_0[k][n] is Literal);
        }
        let n = choose|n: int| 0 <= n < parts[k].len() && parts[k][n] == '{';
        let at = crate::text::lemma_split_part_place(raw, '/', k);
        if !raw.contains('{') {
            crate::text::lemma_split_parts_within(raw, '/', k, '{');
        }
    }
}

/// What is wrong with a template is told by the first rule it breaks: that it is
/// empty, holds a NUL, begins with a slash or ends with one.
pub proof fn law_template_errors_name_the_rule(raw: Seq<char>, allow: bool)
    ensures
        parse_template(Seq::empty(), allow) is Err && parse_template(Seq::empty(), allow)->Err_0
            is Empty,
        raw.len() > 0 && raw.contains('\0') ==> parse_template(raw, allow) is Err
            && parse_template(raw, allow)->Err_0 is Nul,
        raw.len() > 0 && !raw.contains('\0') && raw[0] == '/' ==> parse_template(raw, allow) is Err
            && parse_template(raw, allow)->Err_0 is Absolute,
        raw.len() > 0 && !raw.contains('\0') && raw[0] != '/' && raw.last() == '/'
            ==> parse_template(raw, allow) is Err && parse_template(raw, allow)->Err_0
            is TrailingSlash,
{
}

} // verus!
