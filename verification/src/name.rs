//! Validation of member and group names.
//!
//! Member names come from membership file names, which are untrusted input.
//! Group names come from configuration. Both follow the same rules:
//!
//! - only `A-Z`, `a-z`, `0-9`, `.`, `_`, `-`;
//! - 1 to 255 bytes;
//! - must not begin with `.`.
//!
//! Because a valid name can contain neither `/` nor be `.` or `..`, it can be
//! interpolated into a path template without introducing new path components
//! or traversal.
use vstd::prelude::*;
use vstd::string::*;
use vstd::utf8::*;

use crate::order::{is_text_before, lemma_lex_strict_order, lemma_text_order, lex, text_before, Key};
use crate::text::{byte_len, chars_of, decimal, hex_char, hex_digit, join, push_decimal, split, split_text, texts};

verus! {

/// Maximum length of a name in bytes (the Linux `NAME_MAX`).
pub const MAX_NAME_LEN: usize = 255;

/// The most directory levels a group set can have.
pub const MAX_SET_DEPTH: usize = 2;

/// A validated member or group name.
#[derive(Debug, PartialEq, Eq, PartialOrd, Ord, Hash)]
pub struct Name(String);

/// Why a candidate name was rejected.
#[derive(Debug, Clone, Copy, PartialEq, Eq, Structural)]
pub enum NameError {
    /// The name is empty.
    Empty,
    /// The name is longer than [`MAX_NAME_LEN`] bytes.
    TooLong(usize),
    /// The name begins with `.`.
    LeadingDot,
    /// The name contains a byte outside the allowlist.
    InvalidByte {
        /// The offending byte.
        byte: u8,
        /// Its offset within the name.
        offset: usize,
    },
}

/// The bytes that a name may hold: ASCII letters and digits, `.`, `_`, `-`.
pub open spec fn allowed_byte(b: u8) -> bool {
    ||| 0x30 <= b <= 0x39
    ||| 0x41 <= b <= 0x5a
    ||| 0x61 <= b <= 0x7a
    ||| b == 0x2e
    ||| b == 0x5f
    ||| b == 0x2d
}

/// The characters that a name may hold.
pub open spec fn allowed_char(c: char) -> bool {
    ||| '0' <= c <= '9'
    ||| 'A' <= c <= 'Z'
    ||| 'a' <= c <= 'z'
    ||| c == '.'
    ||| c == '_'
    ||| c == '-'
}

/// A valid name.
pub open spec fn valid_name(s: Seq<char>) -> bool {
    &&& 1 <= s.len() <= MAX_NAME_LEN
    &&& s[0] != '.'
    &&& forall|i: int| 0 <= i < s.len() ==> allowed_char(#[trigger] s[i])
}

/// The offset of the first byte at or after `from` that no name may hold, or
/// the length.
pub open spec fn first_disallowed(b: Seq<u8>, from: int) -> int
    decreases b.len() - from,
{
    if from < 0 || from >= b.len() {
        b.len() as int
    } else if !allowed_byte(b[from]) {
        from
    } else {
        first_disallowed(b, from + 1)
    }
}

/// What validating raw bytes as a name gives: the name, or the first rule
/// that the bytes break.
pub open spec fn check_name(b: Seq<u8>) -> Result<Seq<char>, NameError> {
    if b.len() == 0 {
        Err(NameError::Empty)
    } else if b.len() > MAX_NAME_LEN {
        Err(NameError::TooLong(b.len() as usize))
    } else if b[0] == 0x2e {
        Err(NameError::LeadingDot)
    } else if first_disallowed(b, 0) < b.len() {
        Err(
            NameError::InvalidByte {
                byte: b[first_disallowed(b, 0)],
                offset: first_disallowed(b, 0) as usize,
            },
        )
    } else {
        Ok(Seq::new(b.len(), |i: int| b[i] as char))
    }
}

/// What validating text as a name gives.
pub open spec fn check_text(s: Seq<char>) -> Result<Seq<char>, NameError> {
    check_name(encode_utf8(s))
}

fn is_allowed_byte(b: u8) -> (r: bool)
    ensures
        r == allowed_byte(b),
{
    (0x30 <= b && b <= 0x39) || (0x41 <= b && b <= 0x5a) || (0x61 <= b && b <= 0x7a) || b == 0x2e
        || b == 0x5f || b == 0x2d
}

proof fn lemma_first_disallowed(b: Seq<u8>, from: int)
    requires
        0 <= from <= b.len(),
    ensures
        from <= first_disallowed(b, from) <= b.len(),
        forall|i: int| from <= i < first_disallowed(b, from) ==> allowed_byte(#[trigger] b[i]),
        first_disallowed(b, from) < b.len() ==> !allowed_byte(b[first_disallowed(b, from)]),
    decreases b.len() - from,
{
    if from < b.len() && allowed_byte(b[from]) {
        lemma_first_disallowed(b, from + 1);
    }
}

/// Bytes pass exactly when they are a valid name, one character a byte.
pub proof fn lemma_check_name_valid(b: Seq<u8>)
    ensures
        check_name(b) matches Ok(n) ==> valid_name(n) && n.len() == b.len(),
{
    lemma_first_disallowed(b, 0);
    if check_name(b) is Ok {
        let n = check_name(b)->Ok_0;
        assert forall|i: int| 0 <= i < n.len() implies allowed_char(#[trigger] n[i]) by {
            assert(allowed_byte(b[i]));
        }
    }
}

/// Text whose encoding is ASCII is encoded one byte a character.
proof fn lemma_ascii_bytes(s: Seq<char>)
    requires
        forall|i: int| 0 <= i < encode_utf8(s).len() ==> (#[trigger] encode_utf8(s)[i]) < 0x80,
    ensures
        encode_utf8(s).len() == s.len(),
        forall|i: int| 0 <= i < s.len() ==> encode_utf8(s)[i] as char == #[trigger] s[i],
    decreases s.len(),
{
    if s.len() > 0 {
        let c = s[0];
        let v = c as u32;
        char_is_scalar(c);
        let head = encode_scalar(v);
        let tail = encode_utf8(s.drop_first());
        assert(encode_utf8(s) == head + tail);
        assert(head[0] == encode_utf8(s)[0]);
        assert(0xC0u8 | ((v >> 6u32) & 0x1F) as u8 >= 0x80) by (bit_vector);
        assert(0xE0u8 | ((v >> 12u32) & 0x0F) as u8 >= 0x80) by (bit_vector);
        assert(0xF0u8 | ((v >> 18u32) & 0x7) as u8 >= 0x80) by (bit_vector);
        assert(has_width_1_encoding(v));
        assert((v & 0x7f) as u8 == v) by (bit_vector)
            requires
                v <= 0x7f,
        ;
        char_u32_cast(c, v);
        assert(head.len() == 1 && head[0] == v);
        assert(head[0] as char == c);
        assert forall|i: int| 0 <= i < tail.len() implies (#[trigger] tail[i]) < 0x80 by {
            assert(tail[i] == encode_utf8(s)[i + 1]);
        }
        lemma_ascii_bytes(s.drop_first());
        assert forall|i: int| 0 <= i < s.len() implies encode_utf8(s)[i] as char
            == #[trigger] s[i] by {
            if i > 0 {
                assert(s[i] == s.drop_first()[i - 1]);
                assert(encode_utf8(s)[i] == tail[i - 1]);
            }
        }
    }
}

/// Text that passes as a name is that name.
pub proof fn lemma_check_text_same(s: Seq<char>)
    ensures
        check_text(s) matches Ok(n) ==> n == s && valid_name(s),
{
    let b = encode_utf8(s);
    if check_text(s) is Ok {
        lemma_first_disallowed(b, 0);
        assert forall|i: int| 0 <= i < b.len() implies (#[trigger] b[i]) < 0x80 by {
            assert(allowed_byte(b[i]));
        }
        lemma_ascii_bytes(s);
        lemma_check_name_valid(b);
        assert(check_text(s)->Ok_0 =~= s);
    }
}

/// A valid name is encoded one byte a character, and passes.
pub proof fn lemma_valid_name_passes(s: Seq<char>)
    requires
        valid_name(s),
    ensures
        check_text(s) == Ok::<Seq<char>, NameError>(s),
        byte_len(s) == s.len(),
        !s.contains('/'),
        s != seq!['.'],
        s != seq!['.', '.'],
{
    let b = encode_utf8(s);
    assert forall|i: int| 0 <= i < s.len() implies '\0' <= #[trigger] s[i] <= '\u{7f}' by {
        assert(allowed_char(s[i]));
    }
    is_ascii_chars_encode_utf8(s);
    assert forall|i: int| 0 <= i < b.len() implies allowed_byte(#[trigger] b[i]) && b[i] as char
        == s[i] by {
        assert(allowed_char(s[i]));
    }
    lemma_first_disallowed(b, 0);
    assert(Seq::new(b.len(), |i: int| b[i] as char) =~= s);
    assert forall|i: int| 0 <= i < s.len() implies s[i] != '/' by {
        assert(allowed_char(s[i]));
    }
}

impl View for Name {
    type V = Seq<char>;

    closed spec fn view(&self) -> Seq<char> {
        self.0@
    }
}

impl Clone for Name {
    fn clone(&self) -> (r: Self)
        ensures
            r@ == self@,
    {
        proof {
            use_type_invariant(self);
        }
        Name(self.0.clone())
    }
}

impl Key for Name {
    open spec fn before(a: Seq<char>, b: Seq<char>) -> bool {
        text_before(a, b)
    }

    proof fn lemma_key_order() {
        lemma_text_order();
        let f = |a: Seq<char>, b: Seq<char>| text_before(a, b);
        let g = |a: Seq<char>, b: Seq<char>| Self::before(a, b);
        assert(f =~= g);
    }

    fn is_before(&self, other: &Self) -> (r: bool) {
        let r = is_text_before(self.0.as_str(), other.0.as_str());
        assert(Name::before(self@, other@) == text_before(self@, other@));
        r
    }
}

impl Name {
    /// A name is valid.
    #[verifier::type_invariant]
    pub open spec fn valid(&self) -> bool {
        valid_name(self@)
    }

    /// Validates a name given as raw bytes, such as a directory entry name.
    pub fn from_bytes(bytes: &[u8]) -> (r: Result<Self, NameError>)
        ensures
            match r {
                Ok(name) => check_name(bytes@) == Ok::<Seq<char>, NameError>(name@),
                Err(e) => check_name(bytes@) == Err::<Seq<char>, NameError>(e),
            },
    {
        if bytes.len() == 0 {
            return Err(NameError::Empty);
        }
        if bytes.len() > MAX_NAME_LEN {
            return Err(NameError::TooLong(bytes.len()));
        }
        if bytes[0] == 0x2e {
            return Err(NameError::LeadingDot);
        }
        let mut text = String::new();
        let mut offset: usize = 0;
        while offset < bytes.len()
            invariant
                offset <= bytes@.len(),
                1 <= bytes@.len() <= MAX_NAME_LEN,
                bytes@[0] != 0x2e,
                first_disallowed(bytes@, 0) == first_disallowed(bytes@, offset as int),
                text@ == Seq::new(offset as nat, |i: int| bytes@[i] as char),
            decreases bytes@.len() - offset,
        {
            let b = bytes[offset];
            if !is_allowed_byte(b) {
                return Err(NameError::InvalidByte { byte: b, offset });
            }
            text.push(b as char);
            offset += 1;
            assert(text@ =~= Seq::new(offset as nat, |i: int| bytes@[i] as char));
        }
        proof {
            lemma_check_name_valid(bytes@);
            assert(text@ =~= check_name(bytes@)->Ok_0);
        }
        Ok(Name(text))
    }

    /// Validates a name given as a string.
    pub fn new(s: &str) -> (r: Result<Self, NameError>)
        ensures
            match r {
                Ok(name) => check_text(s@) == Ok::<Seq<char>, NameError>(name@) && name@ == s@,
                Err(e) => check_text(s@) == Err::<Seq<char>, NameError>(e),
            },
    {
        proof {
            lemma_check_text_same(s@);
        }
        Self::from_bytes(s.as_bytes())
    }

    /// Returns the name as a string slice.
    pub fn as_str(&self) -> (r: &str)
        ensures
            r@ == self@,
    {
        self.0.as_str()
    }

    /// Whether two names are the same.
    pub fn same(&self, other: &Self) -> (r: bool)
        ensures
            r == (self@ == other@),
    {
        crate::text::same(self.0.as_str(), other.0.as_str())
    }
}

impl std::str::FromStr for Name {
    type Err = NameError;

    fn from_str(s: &str) -> (r: Result<Self, NameError>)
        ensures
            match r {
                Ok(name) => check_text(s@) == Ok::<Seq<char>, NameError>(name@) && name@ == s@,
                Err(e) => check_text(s@) == Err::<Seq<char>, NameError>(e),
            },
    {
        Self::new(s)
    }
}

impl NameError {
    /// The text of the error.
    pub open spec fn text(self) -> Seq<char> {
        match self {
            NameError::Empty => "name is empty"@,
            NameError::TooLong(n) => "name is "@ + decimal(n as nat)
                + " bytes long; the maximum is "@ + decimal(MAX_NAME_LEN as nat),
            NameError::LeadingDot => "name begins with '.'"@,
            NameError::InvalidByte { byte, offset } => "name contains disallowed byte 0x"@ + seq![
                hex_digit(byte as nat / 16),
                hex_digit(byte as nat % 16),
            ] + " at offset "@ + decimal(offset as nat),
        }
    }

    /// Describes the error.
    pub fn message(&self) -> (r: String)
        ensures
            r@ == self.text(),
    {
        let mut out = String::new();
        match self {
            NameError::Empty => {
                out.append("name is empty");
            },
            NameError::TooLong(n) => {
                out.append("name is ");
                push_decimal(&mut out, *n as u64);
                out.append(" bytes long; the maximum is ");
                push_decimal(&mut out, MAX_NAME_LEN as u64);
            },
            NameError::LeadingDot => {
                out.append("name begins with '.'");
            },
            NameError::InvalidByte { byte, offset } => {
                out.append("name contains disallowed byte 0x");
                out.push(hex_char(*byte / 16));
                out.push(hex_char(*byte % 16));
                out.append(" at offset ");
                push_decimal(&mut out, *offset as u64);
            },
        }
        assert(out@ =~= self.text());
        out
    }
}

/// What identifies a group: the set it belongs to, if any, and its name
/// components.
#[verifier::ext_equal]
pub struct GroupIdView {
    /// The set.
    pub set: Option<Seq<char>>,
    /// The static group name, or the set directory levels.
    pub path: Seq<Seq<char>>,
}

/// The views of a list of names.
pub open spec fn name_views(names: Seq<Name>) -> Seq<Seq<char>> {
    names.map_values(|n: Name| n@)
}

impl GroupIdView {
    /// The names are valid, a static group has one and a group of a set one
    /// or two.
    pub open spec fn valid(self) -> bool {
        &&& 1 <= self.path.len() <= MAX_SET_DEPTH
        &&& self.set is None ==> self.path.len() == 1
        &&& self.set matches Some(set) ==> valid_name(set)
        &&& forall|i: int| 0 <= i < self.path.len() ==> valid_name(#[trigger] self.path[i])
    }

    /// All the names: the set, if any, then the path.
    pub open spec fn names(self) -> Seq<Seq<char>> {
        match self.set {
            None => self.path,
            Some(set) => seq![set] + self.path,
        }
    }

    /// The group as text: its names joined with `/`.
    pub open spec fn text(self) -> Seq<char> {
        join(self.names(), seq!['/'])
    }

    /// Whether this group is `prefix` or lies beneath it.
    pub open spec fn starts_with(self, prefix: Self) -> bool {
        self.set == prefix.set && prefix.path.is_prefix_of(self.path)
    }
}

/// Identifies a group: a statically configured group (`acme`), or a group
/// discovered in a group set, named by the set and one or two directory
/// levels (`research/acme`, or `projects/acme/research` for a set with
/// subgroups).
///
/// Names cannot contain `/`, so the forms never collide.
#[derive(Debug, PartialEq, Eq, PartialOrd, Ord, Hash)]
pub struct GroupId {
    set: Option<Name>,
    path: Vec<Name>,
}

impl View for GroupId {
    type V = GroupIdView;

    closed spec fn view(&self) -> GroupIdView {
        GroupIdView {
            set: match self.set {
                None => None,
                Some(set) => Some(set@),
            },
            path: name_views(self.path@),
        }
    }
}

/// The first of the texts that is no name, or the names.
pub open spec fn check_texts(parts: Seq<Seq<char>>) -> Result<Seq<Seq<char>>, NameError>
    decreases parts.len(),
{
    if parts.len() == 0 {
        Ok(Seq::empty())
    } else {
        match check_texts(parts.drop_last()) {
            Err(e) => Err(e),
            Ok(front) => match check_text(parts.last()) {
                Err(e) => Err(e),
                Ok(n) => Ok(front.push(n)),
            },
        }
    }
}

/// The byte offset of the last `/`.
pub open spec fn last_slash(s: Seq<char>) -> nat
    decreases s.len(),
{
    if s.len() == 0 {
        0
    } else if s.last() == '/' {
        byte_len(s.drop_last())
    } else {
        last_slash(s.drop_last())
    }
}

/// What parsing `group`, `set/group` or `set/group/subgroup` gives.
pub open spec fn parse_group(s: Seq<char>) -> Result<GroupIdView, NameError> {
    match check_texts(split(s, '/')) {
        Err(e) => Err(e),
        Ok(names) => if names.len() == 1 {
            Ok(GroupIdView { set: None, path: names })
        } else if names.len() <= 1 + MAX_SET_DEPTH {
            Ok(GroupIdView { set: Some(names[0]), path: names.drop_first() })
        } else {
            Err(NameError::InvalidByte { byte: 0x2f, offset: last_slash(s) as usize })
        },
    }
}

proof fn lemma_check_texts(parts: Seq<Seq<char>>)
    ensures
        check_texts(parts) matches Ok(names) ==> names == parts && (forall|i: int|
            0 <= i < parts.len() ==> valid_name(#[trigger] parts[i])),
        (forall|i: int| 0 <= i < parts.len() ==> valid_name(#[trigger] parts[i])) ==> check_texts(
            parts,
        ) == Ok::<Seq<Seq<char>>, NameError>(parts),
    decreases parts.len(),
{
    if parts.len() == 0 {
        assert(parts =~= Seq::<Seq<char>>::empty());
    } else {
        let front = parts.drop_last();
        lemma_check_texts(front);
        lemma_check_text_same(parts.last());
        assert(front.push(parts.last()) =~= parts);
        if forall|i: int| 0 <= i < parts.len() ==> valid_name(#[trigger] parts[i]) {
            assert forall|i: int| 0 <= i < front.len() implies valid_name(#[trigger] front[i]) by {
                assert(front[i] == parts[i]);
            }
            assert(valid_name(parts[parts.len() - 1]));
            lemma_valid_name_passes(parts.last());
        }
        if check_texts(parts) is Ok {
            assert forall|i: int| 0 <= i < parts.len() implies valid_name(#[trigger] parts[i]) by {
                if i < front.len() {
                    assert(front[i] == parts[i]);
                }
            }
        }
    }
}

proof fn lemma_check_texts_error(parts: Seq<Seq<char>>, n: int)
    requires
        0 <= n <= parts.len(),
        check_texts(parts.take(n)) is Err,
    ensures
        check_texts(parts) == check_texts(parts.take(n)),
    decreases parts.len() - n,
{
    if n < parts.len() {
        assert(parts.take(n + 1).drop_last() =~= parts.take(n));
        lemma_check_texts_error(parts, n + 1);
    } else {
        assert(parts.take(n) =~= parts);
    }
}

/// What is parsed is a valid group.
pub proof fn lemma_parse_group_valid(s: Seq<char>)
    ensures
        parse_group(s) matches Ok(g) ==> g.valid() && g.text() == s,
{
    let parts = split(s, '/');
    lemma_check_texts(parts);
    crate::text::lemma_split_nonempty(s, '/');
    crate::text::lemma_join_split(s, '/');
    if parse_group(s) is Ok {
        let g = parse_group(s)->Ok_0;
        assert(g.names() =~= parts);
        if g.set is Some {
            assert(valid_name(parts[0]));
            assert forall|i: int| 0 <= i < g.path.len() implies valid_name(#[trigger] g.path[i]) by {
                assert(g.path[i] == parts[i + 1]);
            }
        }
    }
}

/// Every valid group is parsed back from its text, so no two groups have the
/// same text.
pub proof fn lemma_group_text_round_trip(g: GroupIdView)
    requires
        g.valid(),
    ensures
        parse_group(g.text()) == Ok::<GroupIdView, NameError>(g),
{
    let names = g.names();
    assert forall|i: int| 0 <= i < names.len() implies valid_name(#[trigger] names[i])
        && !names[i].contains('/') by {
        match g.set {
            None => {
                assert(valid_name(g.path[i]));
            },
            Some(set) => {
                if i > 0 {
                    assert(names[i] == g.path[i - 1]);
                    assert(valid_name(g.path[i - 1]));
                }
            },
        }
        lemma_valid_name_passes(names[i]);
    }
    crate::text::lemma_split_join(names, '/');
    lemma_check_texts(names);
    let r = parse_group(g.text())->Ok_0;
    assert(r.path =~= g.path);
    assert(r =~= g);
}

impl Clone for GroupId {
    fn clone(&self) -> (r: Self)
        ensures
            r@ == self@,
    {
        proof {
            use_type_invariant(self);
        }
        let set = match &self.set {
            None => None,
            Some(set) => Some(set.clone()),
        };
        let r = GroupId { set, path: clone_names(&self.path) };
        r
    }
}

/// Copies a list of names.
pub fn clone_names(names: &Vec<Name>) -> (r: Vec<Name>)
    ensures
        name_views(r@) == name_views(names@),
        r@.len() == names@.len(),
{
    let mut out: Vec<Name> = Vec::new();
    let mut i: usize = 0;
    while i < names.len()
        invariant
            i <= names@.len(),
            out@.len() == i,
            forall|j: int| 0 <= j < i ==> (#[trigger] out@[j])@ == names@[j]@,
        decreases names@.len() - i,
    {
        out.push(names[i].clone());
        i += 1;
    }
    assert(name_views(out@) =~= name_views(names@));
    out
}

/// The order of groups: static groups first, then by set, then by path.
pub open spec fn group_before(a: GroupIdView, b: GroupIdView) -> bool {
    let by_path = lex(|x: Seq<char>, y: Seq<char>| text_before(x, y), a.path, b.path);
    match (a.set, b.set) {
        (None, None) => by_path,
        (None, Some(_)) => true,
        (Some(_), None) => false,
        (Some(x), Some(y)) => text_before(x, y) || (x == y && by_path),
    }
}

fn is_path_before(a: &Vec<Name>, b: &Vec<Name>) -> (r: bool)
    ensures
        r == lex(
            |x: Seq<char>, y: Seq<char>| text_before(x, y),
            name_views(a@),
            name_views(b@),
        ),
{
    let ghost lt = |x: Seq<char>, y: Seq<char>| text_before(x, y);
    let ghost va = name_views(a@);
    let ghost vb = name_views(b@);
    let mut i: usize = 0;
    assert(va.skip(0) =~= va && vb.skip(0) =~= vb);
    while i < a.len() && i < b.len()
        invariant
            i <= a@.len(),
            i <= b@.len(),
            lt == (|x: Seq<char>, y: Seq<char>| text_before(x, y)),
            va == name_views(a@),
            vb == name_views(b@),
            lex(lt, va, vb) == lex(lt, va.skip(i as int), vb.skip(i as int)),
        decreases a@.len() - i,
    {
        assert(va.skip(i as int)[0] == a@[i as int]@);
        assert(vb.skip(i as int)[0] == b@[i as int]@);
        if !a[i].same(&b[i]) {
            return a[i].is_before(&b[i]);
        }
        assert(va.skip(i as int).drop_first() =~= va.skip(i + 1));
        assert(vb.skip(i as int).drop_first() =~= vb.skip(i + 1));
        i += 1;
    }
    a.len() < b.len()
}

impl Key for GroupId {
    open spec fn before(a: GroupIdView, b: GroupIdView) -> bool {
        group_before(a, b)
    }

    proof fn lemma_key_order() {
        lemma_text_order();
        let text = |x: Seq<char>, y: Seq<char>| text_before(x, y);
        lemma_lex_strict_order(text);
        let path = |x: Seq<Seq<char>>, y: Seq<Seq<char>>| lex(text, x, y);
        let f = |a: GroupIdView, b: GroupIdView| Self::before(a, b);
        assert forall|a: GroupIdView| !#[trigger] f(a, a) by {
            assert(!path(a.path, a.path));
            if a.set is Some {
                assert(!text(a.set->0, a.set->0));
            }
        }
        assert forall|a: GroupIdView, b: GroupIdView, c: GroupIdView| #[trigger] f(a, b)
            && #[trigger] f(b, c) implies f(a, c) by {
            assert(path(a.path, b.path) && path(b.path, c.path) ==> path(a.path, c.path));
            if a.set is Some && b.set is Some && c.set is Some {
                assert(text(a.set->0, b.set->0) && text(b.set->0, c.set->0) ==> text(
                    a.set->0,
                    c.set->0,
                ));
            }
        }
        assert forall|a: GroupIdView, b: GroupIdView| #[trigger] f(a, b) || a == b || f(b, a) by {
            assert(path(a.path, b.path) || a.path == b.path || path(b.path, a.path));
            if a.set is Some && b.set is Some {
                assert(text(a.set->0, b.set->0) || a.set->0 == b.set->0 || text(
                    b.set->0,
                    a.set->0,
                ));
            }
        }
    }

    fn is_before(&self, other: &Self) -> (r: bool) {
        match (&self.set, &other.set) {
            (None, None) => is_path_before(&self.path, &other.path),
            (None, Some(_)) => true,
            (Some(_), None) => false,
            (Some(x), Some(y)) => x.is_before(y) || (x.same(y) && is_path_before(
                &self.path,
                &other.path,
            )),
        }
    }
}

impl GroupId {
    #[verifier::type_invariant]
    spec fn wf(&self) -> bool {
        &&& 1 <= self.path@.len() <= MAX_SET_DEPTH
        &&& self.set is None ==> self.path@.len() == 1
    }

    /// A statically configured group.
    pub fn statically(group: Name) -> (r: Self)
        ensures
            r@ == (GroupIdView { set: None, path: seq![group@] }),
    {
        let mut path: Vec<Name> = Vec::new();
        path.push(group);
        let r = GroupId { set: None, path };
        assert(r@.path =~= seq![group@]);
        r
    }

    /// A group (or, with fewer levels than the set's depth, a directory
    /// prefix of groups) in a group set.
    pub fn in_set(set: Name, path: Vec<Name>) -> (r: Self)
        requires
            1 <= path@.len() <= MAX_SET_DEPTH,
        ensures
            r@ == (GroupIdView { set: Some(set@), path: name_views(path@) }),
    {
        GroupId { set: Some(set), path }
    }

    /// Parses `group`, `set/group` or `set/group/subgroup`.
    pub fn parse(s: &str) -> (r: Result<Self, NameError>)
        ensures
            match r {
                Ok(g) => parse_group(s@) == Ok::<GroupIdView, NameError>(g@) && g@.valid(),
                Err(e) => parse_group(s@) == Err::<GroupIdView, NameError>(e),
            },
    {
        proof {
            lemma_parse_group_valid(s@);
        }
        let parts = split_text(s, '/');
        let ghost views = split(s@, '/');
        let mut names: Vec<Name> = Vec::new();
        let mut i: usize = 0;
        assert(name_views(names@) =~= Seq::<Seq<char>>::empty());
        while i < parts.len()
            invariant
                i <= parts@.len(),
                views == texts(parts@),
                views == split(s@, '/'),
                check_texts(views.take(i as int)) == Ok::<Seq<Seq<char>>, NameError>(
                    name_views(names@),
                ),
                names@.len() == i,
            decreases parts@.len() - i,
        {
            let ghost next = views.take(i + 1);
            assert(next.drop_last() =~= views.take(i as int));
            assert(next.last() == parts@[i as int]@);
            let ghost olds = names@;
            match Name::new(parts[i].as_str()) {
                Err(e) => {
                    proof {
                        lemma_check_texts_error(views, i + 1);
                    }
                    return Err(e);
                },
                Ok(name) => {
                    let ghost n = name@;
                    names.push(name);
                    assert(name_views(names@) =~= name_views(olds).push(n));
                },
            }
            i += 1;
        }
        assert(views.take(views.len() as int) =~= views);
        let ghost all = name_views(names@);
        if names.len() == 1 {
            let first = names.remove(0);
            assert(all =~= seq![first@]);
            return Ok(Self::statically(first));
        }
        if names.len() <= 1 + MAX_SET_DEPTH {
            let ghost olds = names@;
            let first = names.remove(0);
            assert(name_views(names@) =~= all.drop_first());
            return Ok(Self::in_set(first, names));
        }
        Err(NameError::InvalidByte { byte: 0x2f, offset: last_slash_offset(s) })
    }

    /// The set this group belongs to, if any.
    pub fn set(&self) -> (r: Option<&Name>)
        ensures
            match r {
                None => self@.set is None,
                Some(set) => self@.set == Some(set@),
            },
    {
        match &self.set {
            None => None,
            Some(set) => Some(set),
        }
    }

    /// The group's name components: the static group name, or the set
    /// directory levels.
    pub fn path(&self) -> (r: &[Name])
        ensures
            name_views(r@) == self@.path,
            1 <= r@.len() <= MAX_SET_DEPTH,
    {
        proof {
            use_type_invariant(self);
        }
        self.path.as_slice()
    }

    /// Whether `self` is `prefix` or lies beneath it (same set, and
    /// `prefix`'s path is a leading part of this path).
    pub fn starts_with(&self, prefix: &Self) -> (r: bool)
        ensures
            r == self@.starts_with(prefix@),
    {
        let same_set = match (&self.set, &prefix.set) {
            (None, None) => true,
            (Some(x), Some(y)) => x.same(y),
            _ => false,
        };
        if !same_set || prefix.path.len() > self.path.len() {
            return false;
        }
        let mut i: usize = 0;
        while i < prefix.path.len()
            invariant
                i <= prefix.path@.len() <= self.path@.len(),
                forall|j: int| 0 <= j < i ==> (#[trigger] self.path@[j])@ == prefix.path@[j]@,
            decreases prefix.path@.len() - i,
        {
            if !self.path[i].same(&prefix.path[i]) {
                assert(self@.path[i as int] != prefix@.path[i as int]);
                return false;
            }
            i += 1;
        }
        assert(prefix@.path =~= self@.path.take(prefix@.path.len() as int));
        true
    }

    /// Whether two groups are the same.
    pub fn same(&self, other: &Self) -> (r: bool)
        ensures
            r == (self@ == other@),
    {
        let r = self.path.len() == other.path.len() && self.starts_with(other);
        proof {
            if self@ == other@ {
                assert(self@.path.take(other@.path.len() as int) =~= other@.path);
            }
            if r {
                assert(self@.path =~= other@.path);
            }
        }
        r
    }

    /// The group as text, `group`, `set/group` or `set/group/subgroup`. It is
    /// parsed back from its text.
    pub fn text(&self) -> (r: String)
        ensures
            r@ == self@.text(),
            self@.valid(),
            parse_group(r@) == Ok::<GroupIdView, NameError>(self@),
    {
        proof {
            use_type_invariant(self);
        }
        let mut out = String::new();
        let ghost names = self@.names();
        let mut n: usize = 0;
        if let Some(set) = &self.set {
            proof {
                use_type_invariant(set);
            }
            out.append(set.as_str());
            n = 1;
            assert(names.take(1) =~= seq![set@]);
            assert(out@ =~= set@);
        }
        let ghost lead = n as int;
        assert(out@ =~= join(names.take(lead), seq!['/']));
        let mut i: usize = 0;
        while i < self.path.len()
            invariant
                i <= self.path@.len() <= MAX_SET_DEPTH,
                names == self@.names(),
                names.len() == lead + self.path@.len(),
                lead == 0 || lead == 1,
                forall|j: int| 0 <= j < self.path@.len() ==> names[lead + j] == (
                #[trigger] self.path@[j])@,
                n == lead + i,
                out@ == join(names.take(n as int), seq!['/']),
                forall|j: int| 0 <= j < i ==> valid_name(#[trigger] self@.path[j]),
            decreases self.path@.len() - i,
        {
            let ghost next = names.take(n + 1);
            assert(next.drop_last() =~= names.take(n as int));
            assert(next.last() == self.path@[i as int]@);
            if n > 0 {
                out.push('/');
            }
            let name = &self.path[i];
            proof {
                use_type_invariant(name);
            }
            out.append(name.as_str());
            assert(out@ =~= join(next, seq!['/']));
            i += 1;
            n += 1;
        }
        proof {
            assert(names.take(names.len() as int) =~= names);
            lemma_group_text_round_trip(self@);
        }
        out
    }
}

impl std::str::FromStr for GroupId {
    type Err = NameError;

    fn from_str(s: &str) -> (r: Result<Self, NameError>)
        ensures
            match r {
                Ok(g) => parse_group(s@) == Ok::<GroupIdView, NameError>(g@) && g@.valid(),
                Err(e) => parse_group(s@) == Err::<GroupIdView, NameError>(e),
            },
    {
        Self::parse(s)
    }
}

fn last_slash_offset(s: &str) -> (r: usize)
    ensures
        r == last_slash(s@),
{
    let v = chars_of(s);
    let total: usize = s.as_bytes().len();
    let mut bytes: usize = 0;
    let mut found: usize = 0;
    let mut i: usize = 0;
    proof {
        assert(v@.take(0) =~= Seq::<char>::empty());
    }
    while i < v.len()
        invariant
            i <= v@.len(),
            v@ == s@,
            total == byte_len(s@),
            bytes == byte_len(v@.take(i as int)),
            found == last_slash(v@.take(i as int)),
        decreases v@.len() - i,
    {
        let ghost next = v@.take(i + 1);
        assert(next.drop_last() =~= v@.take(i as int));
        assert(next =~= v@.take(i as int).push(v@[i as int]));
        proof {
            crate::text::lemma_byte_len_push(v@.take(i as int), v@[i as int]);
            crate::text::lemma_byte_len_concat(next, v@.skip(i + 1));
            assert(next + v@.skip(i + 1) =~= v@);
        }
        if v[i] == '/' {
            found = bytes;
        }
        bytes += crate::text::width(v[i]);
        i += 1;
    }
    assert(v@.take(v@.len() as int) =~= v@);
    found
}

/// One byte as it is shown in a log: printable ASCII is kept, everything else is
/// escaped.
pub open spec fn escaped_byte(b: u8) -> Seq<char> {
    if 0x20 <= b <= 0x7e {
        seq![b as char]
    } else if b == 0x09 {
        seq!['\\', 't']
    } else if b == 0x0d {
        seq!['\\', 'r']
    } else if b == 0x0a {
        seq!['\\', 'n']
    } else {
        seq!['\\', 'x', hex_digit(b as nat / 16), hex_digit(b as nat % 16)]
    }
}

/// Bytes as they are shown in a log.
pub open spec fn escaped_bytes(b: Seq<u8>) -> Seq<char>
    decreases b.len(),
{
    if b.len() == 0 {
        Seq::empty()
    } else {
        escaped_bytes(b.drop_last()) + escaped_byte(b.last())
    }
}

/// Adds one byte as it is shown in a log.
pub(crate) fn push_escaped(out: &mut String, b: u8)
    ensures
        final(out)@ == old(out)@ + escaped_byte(b),
{
    let ghost before = out@;
    if 0x20 <= b && b <= 0x7e {
        out.push(b as char);
    } else if b == 0x09 || b == 0x0d || b == 0x0a {
        out.push('\\');
        out.push(if b == 0x09 { 't' } else if b == 0x0d { 'r' } else { 'n' });
    } else {
        out.push('\\');
        out.push('x');
        out.push(hex_char(b / 16));
        out.push(hex_char(b % 16));
    }
    assert(out@ =~= before + escaped_byte(b));
}

/// Renders arbitrary bytes (such as a rejected file name) safely for logs:
/// printable ASCII is kept, everything else is escaped.
pub fn display_bytes(bytes: &[u8]) -> (r: String)
    ensures
        r@ == escaped_bytes(bytes@),
{
    let mut out = String::new();
    let mut i: usize = 0;
    while i < bytes.len()
        invariant
            i <= bytes@.len(),
            out@ == escaped_bytes(bytes@.take(i as int)),
        decreases bytes@.len() - i,
    {
        let ghost next = bytes@.take(i + 1);
        assert(next.drop_last() =~= bytes@.take(i as int));
        push_escaped(&mut out, bytes[i]);
        i += 1;
    }
    assert(bytes@.take(bytes@.len() as int) =~= bytes@);
    out
}

/// Bytes are a name exactly if there are 1 to 255 of them, the first is no
/// dot, and each is an ASCII letter, an ASCII digit, `.`, `_` or `-`. The name
/// is those bytes as text.
pub proof fn law_names_are_allowed_bytes(b: Seq<u8>)
    ensures
        check_name(b) is Ok <==> {
            &&& 1 <= b.len() <= 255
            &&& b[0] != '.' as u8
            &&& forall|i: int|
                0 <= i < b.len() ==> {
                    ||| 'a' as u8 <= #[trigger] b[i] <= 'z' as u8
                    ||| 'A' as u8 <= b[i] <= 'Z' as u8
                    ||| '0' as u8 <= b[i] <= '9' as u8
                    ||| b[i] == '.' as u8
                    ||| b[i] == '_' as u8
                    ||| b[i] == '-' as u8
                }
        },
        check_name(b) matches Ok(name) ==> name.len() == b.len() && forall|i: int|
            0 <= i < b.len() ==> #[trigger] name[i] as u8 == b[i],
{
    lemma_first_disallowed(b, 0);
}

/// The error says which rule is broken: too short, too long, hidden, or the
/// first byte that no name may hold, with its place.
pub proof fn law_name_errors_name_the_rule(b: Seq<u8>)
    ensures
        b.len() == 0 ==> check_name(b) == Err::<Seq<char>, NameError>(NameError::Empty),
        255 < b.len() <= usize::MAX ==> check_name(b) == Err::<Seq<char>, NameError>(
            NameError::TooLong(b.len() as usize),
        ),
        1 <= b.len() <= 255 && b[0] == '.' as u8 ==> check_name(b) == Err::<Seq<char>, NameError>(
            NameError::LeadingDot,
        ),
        check_name(b) matches Err(NameError::InvalidByte { byte, offset }) ==> {
            &&& offset < b.len()
            &&& b[offset as int] == byte
            &&& forall|i: int| 0 <= i < offset ==> allowed_byte(#[trigger] b[i])
            &&& !allowed_byte(byte)
        },
{
    lemma_first_disallowed(b, 0);
}

/// A group is read back from its text: `group`, `set/group` or
/// `set/group/subgroup`.
pub proof fn law_groups_are_read_back(g: GroupIdView)
    requires
        g.valid(),
    ensures
        parse_group(g.text()) == Ok::<GroupIdView, NameError>(g),
        g.set is None ==> g.text() == g.path[0],
        g.set matches Some(set) ==> g.path.len() == 1 ==> g.text() == set + seq!['/'] + g.path[0],
        g.set matches Some(set) ==> g.path.len() == 2 ==> g.text() == set + seq!['/'] + g.path[0]
            + seq!['/'] + g.path[1],
{
    let names = g.names();
    assert forall|i: int| 0 <= i < names.len() implies valid_name(#[trigger] names[i]) by {
        if g.set is Some && i > 0 {
            assert(names[i] == g.path[i - 1]);
        }
    }
    assert forall|i: int| 0 <= i < names.len() implies !(#[trigger] names[i]).contains('/') by {
        assert(valid_name(names[i]));
        if names[i].contains('/') {
            let k = choose|k: int| 0 <= k < names[i].len() && names[i][k] == '/';
            assert(allowed_char(names[i][k]));
        }
    }
    crate::text::lemma_split_join(names, '/');
    lemma_check_texts(names);
    reveal_with_fuel(join, 3);
    if g.set is Some {
        assert(names.drop_first() =~= g.path);
        let front = names.drop_last();
        if g.path.len() == 1 {
            assert(front.len() == 1 && front[0] == names[0]);
            assert(names.last() == g.path[0]);
        } else {
            assert(front.drop_last().len() == 1 && front.drop_last()[0] == names[0]);
            assert(front.last() == g.path[0]);
            assert(names.last() == g.path[1]);
        }
    } else {
        assert(names =~= seq![g.path[0]]);
    }
}

} // verus!
