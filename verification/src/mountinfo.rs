//! Parser for `/proc/<pid>/mountinfo`.
//!
//! Byssus uses mountinfo only to check mount propagation (looked up by mount
//! ID) and to produce human-readable status output. It is never used to decide
//! mount ownership.
//!
//! Line format (see `proc_pid_mountinfo(5)`):
//!
//! ```text
//! 36 35 98:0 /mnt1 /mnt2 rw,noatime master:1 - ext3 /dev/root rw,errors=continue
//! (1)(2)(3)   (4)   (5)      (6)      (7)   (8) (9)   (10)         (11)
//! ```
//!
//! Fields 4, 5 and 10 escape space, tab, newline and backslash as `\ooo`
//! octal sequences. Paths may contain arbitrary non-UTF-8 bytes, so lines are
//! split as bytes.
use vstd::prelude::*;
use vstd::string::*;
use vstd::utf8::encode_utf8;

use crate::name::{escaped_byte, push_escaped};
use crate::parse::{
    law_decimals_are_read_back, law_texts_are_split_at_the_first, number, parse_u32, parse_u64,
    split_at_first, split_first,
};
use crate::text::{chars_of, decimal, push_decimal, split, split_text, text_between, texts};

verus! {

/// The text of bytes in which whatever is not UTF-8 is replaced: what
/// `String::from_utf8_lossy` gives.
pub uninterp spec fn lossy_text(bytes: Seq<u8>) -> Seq<char>;

/// `String::from_utf8_lossy`: the text of bytes, with what is not UTF-8
/// replaced. Nothing more is said of the text.
#[verifier::external_body]
fn text(field: &[u8]) -> (r: String)
    ensures
        r@ == lossy_text(field@),
{
    String::from_utf8_lossy(field).into_owned()
}

/// Mount propagation, derived from the optional fields.
#[derive(Debug, Clone, Copy, PartialEq, Eq, Structural)]
#[allow(inconsistent_fields)]
pub enum Propagation {
    /// No propagation fields: events neither propagate out nor in.
    Private,
    /// `shared:N` only.
    Shared {
        /// Peer group ID.
        peer_group: u64,
    },
    /// `master:N` only: receives events from a peer group but does not send.
    Slave {
        /// Master peer group ID.
        master: u64,
    },
    /// Both `shared:N` and `master:N`.
    SharedAndSlave {
        /// Peer group ID.
        peer_group: u64,
        /// Master peer group ID.
        master: u64,
    },
    /// `unbindable`.
    Unbindable,
}

/// One entry from mountinfo.
#[derive(Debug, PartialEq, Eq)]
pub struct MountInfo {
    /// Field 1: mount ID.
    pub mount_id: u64,
    /// Field 2: parent mount ID.
    pub parent_id: u64,
    /// Field 3: device major number.
    pub major: u32,
    /// Field 3: device minor number.
    pub minor: u32,
    /// Field 4: root of the mount within its filesystem (unescaped).
    pub root: Vec<u8>,
    /// Field 5: mount point relative to the reader's root (unescaped).
    pub mount_point: Vec<u8>,
    /// Field 6: per-mount options.
    pub mount_options: String,
    /// Field 7: propagation, from the optional fields.
    pub propagation: Propagation,
    /// Field 7: the raw optional fields.
    pub optional_fields: Vec<String>,
    /// Field 9: filesystem type.
    pub fs_type: String,
    /// Field 10: mount source (unescaped).
    pub source: Vec<u8>,
    /// Field 11: per-superblock options.
    pub super_options: String,
}

/// What an entry stands for.
#[verifier::ext_equal]
pub struct MountInfoView {
    /// Mount ID.
    pub mount_id: u64,
    /// Parent mount ID.
    pub parent_id: u64,
    /// Device major number.
    pub major: u32,
    /// Device minor number.
    pub minor: u32,
    /// Root of the mount within its filesystem.
    pub root: Seq<u8>,
    /// Mount point.
    pub mount_point: Seq<u8>,
    /// Per-mount options.
    pub mount_options: Seq<char>,
    /// Propagation.
    pub propagation: Propagation,
    /// The raw optional fields.
    pub optional_fields: Seq<Seq<char>>,
    /// Filesystem type.
    pub fs_type: Seq<char>,
    /// Mount source.
    pub source: Seq<u8>,
    /// Per-superblock options.
    pub super_options: Seq<char>,
}

impl View for MountInfo {
    type V = MountInfoView;

    open spec fn view(&self) -> MountInfoView {
        MountInfoView {
            mount_id: self.mount_id,
            parent_id: self.parent_id,
            major: self.major,
            minor: self.minor,
            root: self.root@,
            mount_point: self.mount_point@,
            mount_options: self.mount_options@,
            propagation: self.propagation,
            optional_fields: texts(self.optional_fields@),
            fs_type: self.fs_type@,
            source: self.source@,
            super_options: self.super_options@,
        }
    }
}

impl MountInfo {
    /// Whether a per-mount option (for example `ro`) is present.
    pub fn has_mount_option(&self, option: &str) -> (r: bool)
        ensures
            r == split(self@.mount_options, ',').contains(option@),
    {
        let options = split_text(self.mount_options.as_str(), ',');
        let ghost views = split(self@.mount_options, ',');
        let mut i: usize = 0;
        while i < options.len()
            invariant
                i <= options@.len(),
                views == texts(options@),
                views == split(self@.mount_options, ','),
                forall|j: int| 0 <= j < i ==> (#[trigger] views[j]) != option@,
            decreases options@.len() - i,
        {
            assert(views[i as int] == options@[i as int]@);
            if crate::text::same(options[i].as_str(), option) {
                return true;
            }
            i += 1;
        }
        false
    }
}

// Bytes.

/// The bytes split at every `sep`.
pub open spec fn split_bytes(s: Seq<u8>, sep: u8) -> Seq<Seq<u8>>
    decreases s.len(),
{
    if s.len() == 0 {
        seq![Seq::empty()]
    } else {
        let parts = split_bytes(s.drop_last(), sep);
        if s.last() == sep {
            parts.push(Seq::empty())
        } else {
            parts.update(parts.len() - 1, parts.last().push(s.last()))
        }
    }
}

/// The views of a list of byte strings.
pub open spec fn byte_views(v: Seq<Vec<u8>>) -> Seq<Seq<u8>> {
    v.map_values(|b: Vec<u8>| b@)
}

fn bytes_split(s: &[u8], sep: u8) -> (r: Vec<Vec<u8>>)
    ensures
        byte_views(r@) == split_bytes(s@, sep),
        r@.len() >= 1,
{
    let mut done: Vec<Vec<u8>> = Vec::new();
    let mut current: Vec<u8> = Vec::new();
    let mut i: usize = 0;
    assert(s@.take(0) =~= Seq::<u8>::empty());
    assert(byte_views(done@).push(current@) =~= split_bytes(s@.take(0), sep));
    while i < s.len()
        invariant
            i <= s@.len(),
            byte_views(done@).push(current@) == split_bytes(s@.take(i as int), sep),
        decreases s@.len() - i,
    {
        let b = s[i];
        let ghost next = s@.take(i + 1);
        let ghost done_before = byte_views(done@);
        let ghost current_before = current@;
        proof {
            assert(next.drop_last() =~= s@.take(i as int));
            assert(next.last() == b);
        }
        if b == sep {
            let mut fresh: Vec<u8> = Vec::new();
            std::mem::swap(&mut fresh, &mut current);
            done.push(fresh);
            assert(byte_views(done@) =~= done_before.push(current_before));
            assert(current@ =~= Seq::<u8>::empty());
        } else {
            current.push(b);
            assert(byte_views(done@).push(current@) =~= done_before.push(current_before).update(
                done_before.len() as int,
                current_before.push(b),
            ));
        }
        i += 1;
    }
    assert(s@.take(s@.len() as int) =~= s@);
    let ghost done_before = byte_views(done@);
    let ghost last = current@;
    done.push(current);
    assert(byte_views(done@) =~= done_before.push(last));
    done
}

/// Bytes taken one by one as characters.
pub open spec fn widened(b: Seq<u8>) -> Seq<char> {
    b.map_values(|x: u8| x as char)
}

fn widen(b: &[u8]) -> (r: String)
    ensures
        r@ == widened(b@),
{
    let mut out = String::new();
    let mut i: usize = 0;
    while i < b.len()
        invariant
            i <= b@.len(),
            out@ =~= widened(b@).take(i as int),
        decreases b@.len() - i,
    {
        out.push(b[i] as char);
        i += 1;
    }
    assert(out@ =~= widened(b@));
    out
}

/// One byte of a field, inside quotes: quotes and the backslash are escaped like
/// what cannot be printed.
pub open spec fn quoted_byte(b: u8) -> Seq<char> {
    if b == 0x27 || b == 0x22 || b == 0x5c {
        seq!['\\', b as char]
    } else {
        escaped_byte(b)
    }
}

/// The bytes of a field, inside quotes.
pub open spec fn quoted_bytes(b: Seq<u8>) -> Seq<char>
    decreases b.len(),
{
    if b.len() == 0 {
        Seq::empty()
    } else {
        quoted_bytes(b.drop_last()) + quoted_byte(b.last())
    }
}

fn quote_bytes(bytes: &[u8]) -> (r: String)
    ensures
        r@ == quoted_bytes(bytes@),
{
    let mut out = String::new();
    let mut i: usize = 0;
    while i < bytes.len()
        invariant
            i <= bytes@.len(),
            out@ == quoted_bytes(bytes@.take(i as int)),
        decreases bytes@.len() - i,
    {
        let b = bytes[i];
        let ghost next = bytes@.take(i + 1);
        let ghost before = out@;
        assert(next.drop_last() =~= bytes@.take(i as int));
        if b == 0x27 || b == 0x22 || b == 0x5c {
            out.push('\\');
            out.push(b as char);
        } else {
            push_escaped(&mut out, b);
        }
        assert(out@ =~= before + quoted_byte(b));
        i += 1;
    }
    assert(bytes@.take(bytes@.len() as int) =~= bytes@);
    out
}

/// The text of a field that should have been a number.
pub open spec fn invalid_number(what: Seq<char>, field: Seq<u8>) -> Seq<char> {
    "invalid "@ + what + " '"@ + quoted_bytes(field) + "'"@
}

/// The number that a field holds. Digits are ASCII, so a field that is not
/// UTF-8 is no number either way.
pub open spec fn field_number(field: Seq<u8>, what: Seq<char>, max: nat) -> Result<nat, Seq<char>> {
    match number(widened(field), 10, max) {
        Ok(n) => Ok(n),
        Err(_) => Err(invalid_number(what, field)),
    }
}

fn number_error(what: &str, field: &[u8]) -> (r: String)
    ensures
        r@ == invalid_number(what@, field@),
{
    let mut out = String::new();
    out.append("invalid ");
    out.append(what);
    out.append(" '");
    out.append(quote_bytes(field).as_str());
    out.append("'");
    assert(out@ =~= invalid_number(what@, field@));
    out
}

fn parse_wide(field: &[u8], what: &str) -> (r: Result<u64, String>)
    ensures
        match r {
            Ok(n) => field_number(field@, what@, u64::MAX as nat) == Ok::<nat, Seq<char>>(n as nat),
            Err(e) => field_number(field@, what@, u64::MAX as nat) == Err::<nat, Seq<char>>(e@),
        },
{
    match parse_u64(widen(field).as_str()) {
        Ok(n) => Ok(n),
        Err(_) => Err(number_error(what, field)),
    }
}

fn parse_narrow(field: &[u8], what: &str) -> (r: Result<u32, String>)
    ensures
        match r {
            Ok(n) => field_number(field@, what@, u32::MAX as nat) == Ok::<nat, Seq<char>>(n as nat),
            Err(e) => field_number(field@, what@, u32::MAX as nat) == Err::<nat, Seq<char>>(e@),
        },
{
    match parse_u32(widen(field).as_str()) {
        Ok(n) => Ok(n),
        Err(_) => Err(number_error(what, field)),
    }
}

// Escapes.

/// What is wrong with an escape.
#[derive(Debug, Clone, Copy, PartialEq, Eq, Structural)]
pub enum EscapeError {
    /// A backslash without three octal digits.
    Invalid,
    /// Three octal digits that give no byte.
    OutOfRange,
}

/// Whether a byte is an octal digit.
pub open spec fn is_octal(b: u8) -> bool {
    0x30 <= b <= 0x37
}

/// Whether an escape stands at the start of the bytes.
pub open spec fn escape_at(b: Seq<u8>) -> bool {
    b.len() >= 4 && is_octal(b[1]) && is_octal(b[2]) && is_octal(b[3])
}

/// The value of the escape at the start of the bytes.
pub open spec fn escape_value(b: Seq<u8>) -> int {
    (b[1] - 0x30) * 64 + (b[2] - 0x30) * 8 + (b[3] - 0x30)
}

/// The bytes with every `\ooo` decoded; the first escape that cannot be
/// decides.
pub open spec fn unescaped(b: Seq<u8>) -> Result<Seq<u8>, EscapeError>
    decreases b.len(),
{
    if b.len() == 0 {
        Ok(Seq::empty())
    } else if b[0] == 0x5c {
        if !escape_at(b) {
            Err(EscapeError::Invalid)
        } else if escape_value(b) > 255 {
            Err(EscapeError::OutOfRange)
        } else {
            match unescaped(b.skip(4)) {
                Ok(rest) => Ok(seq![escape_value(b) as u8] + rest),
                Err(e) => Err(e),
            }
        }
    } else {
        match unescaped(b.skip(1)) {
            Ok(rest) => Ok(seq![b[0]] + rest),
            Err(e) => Err(e),
        }
    }
}

/// The text of a field whose escapes cannot be decoded.
pub open spec fn escape_text(field: Seq<u8>, e: EscapeError) -> Seq<char> {
    match e {
        EscapeError::Invalid => "invalid escape sequence in '"@ + quoted_bytes(field) + "'"@,
        EscapeError::OutOfRange => "escape out of range in '"@ + quoted_bytes(field) + "'"@,
    }
}

/// A field with its escapes decoded.
pub open spec fn field_bytes(field: Seq<u8>) -> Result<Seq<u8>, Seq<char>> {
    match unescaped(field) {
        Ok(b) => Ok(b),
        Err(e) => Err(escape_text(field, e)),
    }
}

fn decode(bytes: &[u8]) -> (r: Result<Vec<u8>, EscapeError>)
    ensures
        match r {
            Ok(b) => unescaped(bytes@) == Ok::<Seq<u8>, EscapeError>(b@),
            Err(e) => unescaped(bytes@) == Err::<Seq<u8>, EscapeError>(e),
        },
{
    let mut out: Vec<u8> = Vec::new();
    let mut i: usize = 0;
    let n: usize = bytes.len();
    assert(bytes@.skip(0) =~= bytes@);
    proof {
        if let Ok(rest) = unescaped(bytes@) {
            assert(out@ + rest =~= rest);
        }
    }
    while i < n
        invariant
            i <= n,
            n == bytes@.len(),
            unescaped(bytes@) == (match unescaped(bytes@.skip(i as int)) {
                Ok(rest) => Ok::<Seq<u8>, EscapeError>(out@ + rest),
                Err(e) => Err(e),
            }),
        decreases n - i,
    {
        let ghost rest = bytes@.skip(i as int);
        let ghost before = out@;
        let b = bytes[i];
        assert(rest[0] == b);
        if b == 0x5c {
            if n - i < 4 {
                return Err(EscapeError::Invalid);
            }
            let d1 = bytes[i + 1];
            let d2 = bytes[i + 2];
            let d3 = bytes[i + 3];
            assert(rest[1] == d1 && rest[2] == d2 && rest[3] == d3);
            if d1 < 0x30 || d1 > 0x37 || d2 < 0x30 || d2 > 0x37 || d3 < 0x30 || d3 > 0x37 {
                return Err(EscapeError::Invalid);
            }
            let value: u32 = (d1 as u32 - 0x30) * 64 + (d2 as u32 - 0x30) * 8 + (d3 as u32 - 0x30);
            if value > 255 {
                return Err(EscapeError::OutOfRange);
            }
            let v: u8 = value as u8;
            out.push(v);
            proof {
                assert(rest.skip(4) =~= bytes@.skip(i + 4));
                if let Ok(tail) = unescaped(bytes@.skip(i + 4)) {
                    assert(before + (seq![v] + tail) =~= out@ + tail);
                }
            }
            i += 4;
        } else {
            out.push(b);
            proof {
                assert(rest.skip(1) =~= bytes@.skip(i + 1));
                if let Ok(tail) = unescaped(bytes@.skip(i + 1)) {
                    assert(before + (seq![b] + tail) =~= out@ + tail);
                }
            }
            i += 1;
        }
    }
    proof {
        assert(bytes@.skip(n as int) =~= Seq::<u8>::empty());
        assert(out@ + Seq::<u8>::empty() =~= out@);
    }
    Ok(out)
}

/// Decodes the kernel's `\ooo` octal escapes.
pub fn unescape(bytes: &[u8]) -> (r: Result<Vec<u8>, String>)
    ensures
        match r {
            Ok(b) => field_bytes(bytes@) == Ok::<Seq<u8>, Seq<char>>(b@),
            Err(e) => field_bytes(bytes@) == Err::<Seq<u8>, Seq<char>>(e@),
        },
{
    match decode(bytes) {
        Ok(b) => Ok(b),
        Err(e) => {
            let mut out = String::new();
            match e {
                EscapeError::Invalid => {
                    out.append("invalid escape sequence in '");
                },
                EscapeError::OutOfRange => {
                    out.append("escape out of range in '");
                },
            }
            out.append(quote_bytes(bytes).as_str());
            out.append("'");
            assert(out@ =~= escape_text(bytes@, e));
            Err(out)
        },
    }
}

// Propagation.

/// What the optional fields say so far.
#[verifier::ext_equal]
pub struct Peers {
    /// `shared:N`.
    pub shared: Option<u64>,
    /// `master:N`.
    pub master: Option<u64>,
    /// `unbindable`.
    pub unbindable: bool,
}

/// Whether a text begins with a prefix.
pub open spec fn begins(s: Seq<char>, prefix: Seq<char>) -> bool {
    prefix.len() <= s.len() && s.take(prefix.len() as int) == prefix
}

/// What one optional field adds. Fields that are not known do not matter.
pub open spec fn read_optional(p: Peers, field: Seq<char>) -> Result<Peers, Seq<char>> {
    let shared = "shared:"@;
    let master = "master:"@;
    if begins(field, shared) {
        match field_number(
            encode_utf8(field.skip(shared.len() as int)),
            "shared peer group"@,
            u64::MAX as nat,
        ) {
            Ok(n) => Ok(Peers { shared: Some(n as u64), ..p }),
            Err(e) => Err(e),
        }
    } else if begins(field, master) {
        match field_number(
            encode_utf8(field.skip(master.len() as int)),
            "master peer group"@,
            u64::MAX as nat,
        ) {
            Ok(n) => Ok(Peers { master: Some(n as u64), ..p }),
            Err(e) => Err(e),
        }
    } else {
        Ok(Peers { unbindable: p.unbindable || field == "unbindable"@, ..p })
    }
}

/// What optional fields say, in order; the first that cannot be read decides.
pub open spec fn read_optionals(fields: Seq<Seq<char>>) -> Result<Peers, Seq<char>>
    decreases fields.len(),
{
    if fields.len() == 0 {
        Ok(Peers { shared: None, master: None, unbindable: false })
    } else {
        match read_optionals(fields.drop_last()) {
            Err(e) => Err(e),
            Ok(p) => read_optional(p, fields.last()),
        }
    }
}

/// The propagation that optional fields give.
pub open spec fn propagation_of(fields: Seq<Seq<char>>) -> Result<Propagation, Seq<char>> {
    match read_optionals(fields) {
        Err(e) => Err(e),
        Ok(p) => Ok(
            if p.unbindable {
                Propagation::Unbindable
            } else {
                match (p.shared, p.master) {
                    (Some(peer_group), Some(master)) => Propagation::SharedAndSlave {
                        peer_group,
                        master,
                    },
                    (Some(peer_group), None) => Propagation::Shared { peer_group },
                    (None, Some(master)) => Propagation::Slave { master },
                    (None, None) => Propagation::Private,
                }
            },
        ),
    }
}

fn strip(s: &str, prefix: &str) -> (r: Option<String>)
    ensures
        match r {
            Some(rest) => begins(s@, prefix@) && rest@ == s@.skip(prefix@.len() as int),
            None => !begins(s@, prefix@),
        },
{
    let v = chars_of(s);
    let p = chars_of(prefix);
    if p.len() > v.len() {
        return None;
    }
    let mut i: usize = 0;
    while i < p.len()
        invariant
            i <= p@.len() <= v@.len(),
            v@ == s@,
            p@ == prefix@,
            forall|j: int| 0 <= j < i ==> v@[j] == p@[j],
        decreases p@.len() - i,
    {
        if v[i] != p[i] {
            assert(s@.take(prefix@.len() as int)[i as int] != prefix@[i as int]);
            return None;
        }
        i += 1;
    }
    assert(s@.take(prefix@.len() as int) =~= prefix@);
    let rest = text_between(&v, p.len(), v.len());
    assert(rest@ =~= s@.skip(prefix@.len() as int));
    Some(rest)
}

proof fn lemma_optionals_error(fields: Seq<Seq<char>>, n: int)
    requires
        0 <= n <= fields.len(),
        read_optionals(fields.take(n)) is Err,
    ensures
        read_optionals(fields) == read_optionals(fields.take(n)),
    decreases fields.len() - n,
{
    if n < fields.len() {
        assert(fields.take(n + 1).drop_last() =~= fields.take(n));
        lemma_optionals_error(fields, n + 1);
    } else {
        assert(fields.take(n) =~= fields);
    }
}

fn classify_propagation(optional: &Vec<String>) -> (r: Result<Propagation, String>)
    ensures
        match r {
            Ok(p) => propagation_of(texts(optional@)) == Ok::<Propagation, Seq<char>>(p),
            Err(e) => propagation_of(texts(optional@)) == Err::<Propagation, Seq<char>>(e@),
        },
{
    let ghost views = texts(optional@);
    let mut shared: Option<u64> = None;
    let mut master: Option<u64> = None;
    let mut unbindable: bool = false;
    let mut i: usize = 0;
    while i < optional.len()
        invariant
            i <= optional@.len(),
            views == texts(optional@),
            read_optionals(views.take(i as int)) == Ok::<Peers, Seq<char>>(
                Peers { shared, master, unbindable },
            ),
        decreases optional@.len() - i,
    {
        let field = optional[i].as_str();
        proof {
            assert(views.take(i + 1).drop_last() =~= views.take(i as int));
            assert(views.take(i + 1).last() == field@);
        }
        if let Some(v) = strip(field, "shared:") {
            match parse_wide(v.as_str().as_bytes(), "shared peer group") {
                Ok(n) => {
                    shared = Some(n);
                },
                Err(e) => {
                    proof {
                        lemma_optionals_error(views, i + 1);
                    }
                    return Err(e);
                },
            }
        } else if let Some(v) = strip(field, "master:") {
            match parse_wide(v.as_str().as_bytes(), "master peer group") {
                Ok(n) => {
                    master = Some(n);
                },
                Err(e) => {
                    proof {
                        lemma_optionals_error(views, i + 1);
                    }
                    return Err(e);
                },
            }
        } else if crate::text::same(field, "unbindable") {
            unbindable = true;
        }
        i += 1;
    }
    assert(views.take(views.len() as int) =~= views);
    if unbindable {
        return Ok(Propagation::Unbindable);
    }
    Ok(
        match (shared, master) {
            (Some(peer_group), Some(master)) => Propagation::SharedAndSlave { peer_group, master },
            (Some(peer_group), None) => Propagation::Shared { peer_group },
            (None, Some(master)) => Propagation::Slave { master },
            (None, None) => Propagation::Private,
        },
    )
}

// Lines.

/// Where the separator field stands, if there is one.
pub open spec fn separator_at(fields: Seq<Seq<u8>>, from: int) -> Option<int>
    decreases fields.len() - from,
{
    if from < 0 || from >= fields.len() {
        None
    } else if fields[from] == seq![0x2du8] {
        Some(from)
    } else {
        separator_at(fields, from + 1)
    }
}

/// The device number that a field holds.
pub open spec fn device_of(field: Seq<u8>) -> Result<(u32, u32), Seq<char>> {
    match split_first(lossy_text(field), ':') {
        None => Err("invalid device number '"@ + lossy_text(field) + "'"@),
        Some((major, minor)) => match field_number(
            encode_utf8(major),
            "device major"@,
            u32::MAX as nat,
        ) {
            Err(e) => Err(e),
            Ok(major) => match field_number(encode_utf8(minor), "device minor"@, u32::MAX as nat) {
                Err(e) => Err(e),
                Ok(minor) => Ok((major as u32, minor as u32)),
            },
        },
    }
}

/// The optional fields of a line.
pub open spec fn optionals(fields: Seq<Seq<u8>>, separator: int) -> Seq<Seq<char>> {
    fields.subrange(6, separator).map_values(|f: Seq<u8>| lossy_text(f))
}

/// What a line says whose fields are in place, with the first error from the
/// left of those that it has.
pub open spec fn read_fields(fields: Seq<Seq<u8>>, separator: int) -> Result<
    MountInfoView,
    Seq<char>,
> {
    let mount_id = field_number(fields[0], "mount ID"@, u64::MAX as nat);
    let parent_id = field_number(fields[1], "parent ID"@, u64::MAX as nat);
    let device = device_of(fields[2]);
    let propagation = propagation_of(optionals(fields, separator));
    let root = field_bytes(fields[3]);
    let mount_point = field_bytes(fields[4]);
    let source = field_bytes(fields[separator + 2]);
    if mount_id is Err {
        Err(mount_id->Err_0)
    } else if parent_id is Err {
        Err(parent_id->Err_0)
    } else if device is Err {
        Err(device->Err_0)
    } else if propagation is Err {
        Err(propagation->Err_0)
    } else if root is Err {
        Err(root->Err_0)
    } else if mount_point is Err {
        Err(mount_point->Err_0)
    } else if source is Err {
        Err(source->Err_0)
    } else {
        Ok(
            MountInfoView {
                mount_id: mount_id->Ok_0 as u64,
                parent_id: parent_id->Ok_0 as u64,
                major: (device->Ok_0).0,
                minor: (device->Ok_0).1,
                root: root->Ok_0,
                mount_point: mount_point->Ok_0,
                mount_options: lossy_text(fields[5]),
                propagation: propagation->Ok_0,
                optional_fields: optionals(fields, separator),
                fs_type: lossy_text(fields[separator + 1]),
                source: source->Ok_0,
                super_options: lossy_text(fields[separator + 3]),
            },
        )
    }
}

/// What a line says, or what is wrong with it.
pub open spec fn read_line(line: Seq<u8>) -> Result<MountInfoView, Seq<char>> {
    let fields = split_bytes(line, 0x20);
    match separator_at(fields, 0) {
        None => Err("missing '-' separator"@),
        Some(separator) => if separator < 6 {
            Err(
                "expected at least 6 fields before the separator, found "@ + decimal(
                    separator as nat,
                ),
            )
        } else if fields.len() != separator + 4 {
            Err(
                "expected 3 fields after the separator, found "@ + decimal(
                    (fields.len() - separator - 1) as nat,
                ),
            )
        } else {
            read_fields(fields, separator)
        },
    }
}

fn find_separator(fields: &Vec<Vec<u8>>) -> (r: Option<usize>)
    ensures
        match r {
            Some(at) => separator_at(byte_views(fields@), 0) == Some(at as int) && at
                < fields@.len(),
            None => separator_at(byte_views(fields@), 0) is None,
        },
{
    let ghost views = byte_views(fields@);
    let mut i: usize = 0;
    while i < fields.len()
        invariant
            i <= fields@.len(),
            views == byte_views(fields@),
            separator_at(views, 0) == separator_at(views, i as int),
        decreases fields@.len() - i,
    {
        let f = &fields[i];
        assert(views[i as int] == f@);
        if f.len() == 1 && f[0] == 0x2d {
            assert(f@ =~= seq![0x2du8]);
            return Some(i);
        }
        assert(views[i as int] != seq![0x2du8]) by {
            if views[i as int] == seq![0x2du8] {
                assert(f@[0] == 0x2d);
            }
        }
        i += 1;
    }
    None
}

fn counted(text: &str, n: usize) -> (r: String)
    ensures
        r@ == text@ + decimal(n as nat),
{
    let mut out = String::new();
    out.append(text);
    push_decimal(&mut out, n as u64);
    assert(out@ =~= text@ + decimal(n as nat));
    out
}

fn parse_device(field: &[u8]) -> (r: Result<(u32, u32), String>)
    ensures
        match r {
            Ok(d) => device_of(field@) == Ok::<(u32, u32), Seq<char>>(d),
            Err(e) => device_of(field@) == Err::<(u32, u32), Seq<char>>(e@),
        },
{
    let device = text(field);
    match split_at_first(device.as_str(), ':') {
        None => {
            let mut out = String::new();
            out.append("invalid device number '");
            out.append(device.as_str());
            out.append("'");
            assert(out@ =~= "invalid device number '"@ + device@ + "'"@);
            Err(out)
        },
        Some((major, minor)) => {
            let major: u32 = match parse_narrow(major.as_str().as_bytes(), "device major") {
                Ok(n) => n,
                Err(e) => {
                    return Err(e);
                },
            };
            match parse_narrow(minor.as_str().as_bytes(), "device minor") {
                Ok(minor) => Ok((major, minor)),
                Err(e) => Err(e),
            }
        },
    }
}

fn optional_texts(fields: &Vec<Vec<u8>>, separator: usize) -> (r: Vec<String>)
    requires
        6 <= separator <= fields@.len(),
    ensures
        texts(r@) == optionals(byte_views(fields@), separator as int),
{
    let ghost all = optionals(byte_views(fields@), separator as int);
    let mut out: Vec<String> = Vec::new();
    let mut i: usize = 6;
    while i < separator
        invariant
            6 <= i <= separator <= fields@.len(),
            all == optionals(byte_views(fields@), separator as int),
            texts(out@) =~= all.take(i - 6),
        decreases separator - i,
    {
        let ghost before = texts(out@);
        let t = text(fields[i].as_slice());
        let ghost added = t@;
        out.push(t);
        assert(texts(out@) =~= before.push(added));
        assert(all[i - 6] == added);
        i += 1;
    }
    assert(texts(out@) =~= all);
    out
}

fn parse_fields(fields: &Vec<Vec<u8>>, separator: usize) -> (r: Result<MountInfo, String>)
    requires
        6 <= separator,
        fields@.len() == separator + 4,
    ensures
        match r {
            Ok(m) => read_fields(byte_views(fields@), separator as int) == Ok::<
                MountInfoView,
                Seq<char>,
            >(m@),
            Err(e) => read_fields(byte_views(fields@), separator as int) == Err::<
                MountInfoView,
                Seq<char>,
            >(e@),
        },
{
    let ghost views = byte_views(fields@);
    proof {
        assert forall|i: int| 0 <= i < fields@.len() implies (#[trigger] views[i]) == fields@[i]@ by {
        }
    }
    let last: usize = fields.len() - 1;
    let mount_id: u64 = match parse_wide(fields[0].as_slice(), "mount ID") {
        Ok(n) => n,
        Err(e) => {
            return Err(e);
        },
    };
    let parent_id: u64 = match parse_wide(fields[1].as_slice(), "parent ID") {
        Ok(n) => n,
        Err(e) => {
            return Err(e);
        },
    };
    let (major, minor) = match parse_device(fields[2].as_slice()) {
        Ok(d) => d,
        Err(e) => {
            return Err(e);
        },
    };
    let optional_fields = optional_texts(fields, separator);
    let propagation = match classify_propagation(&optional_fields) {
        Ok(p) => p,
        Err(e) => {
            return Err(e);
        },
    };
    let root = match unescape(fields[3].as_slice()) {
        Ok(b) => b,
        Err(e) => {
            return Err(e);
        },
    };
    let mount_point = match unescape(fields[4].as_slice()) {
        Ok(b) => b,
        Err(e) => {
            return Err(e);
        },
    };
    let source = match unescape(fields[last - 1].as_slice()) {
        Ok(b) => b,
        Err(e) => {
            return Err(e);
        },
    };
    Ok(
        MountInfo {
            mount_id,
            parent_id,
            major,
            minor,
            root,
            mount_point,
            mount_options: text(fields[5].as_slice()),
            propagation,
            optional_fields,
            fs_type: text(fields[last - 2].as_slice()),
            source,
            super_options: text(fields[last].as_slice()),
        },
    )
}

fn parse_line(line: &[u8]) -> (r: Result<MountInfo, String>)
    ensures
        match r {
            Ok(m) => read_line(line@) == Ok::<MountInfoView, Seq<char>>(m@),
            Err(e) => read_line(line@) == Err::<MountInfoView, Seq<char>>(e@),
        },
{
    let fields = bytes_split(line, 0x20);
    assert(byte_views(fields@).len() == fields@.len());
    let separator: usize = match find_separator(&fields) {
        Some(at) => at,
        None => {
            return Err("missing '-' separator".to_owned());
        },
    };
    if separator < 6 {
        return Err(
            counted("expected at least 6 fields before the separator, found ", separator),
        );
    }
    if fields.len() - separator != 4 {
        return Err(
            counted(
                "expected 3 fields after the separator, found ",
                fields.len() - separator - 1,
            ),
        );
    }
    parse_fields(&fields, separator)
}

// The table.

/// A mountinfo line could not be parsed.
#[derive(Debug, PartialEq, Eq)]
pub struct ParseError {
    /// 1-based line number.
    pub line: usize,
    /// What was wrong.
    pub reason: String,
}

/// What is wrong with a line.
#[verifier::ext_equal]
pub struct ParseErrorView {
    /// 1-based line number.
    pub line: nat,
    /// What was wrong.
    pub reason: Seq<char>,
}

impl View for ParseError {
    type V = ParseErrorView;

    open spec fn view(&self) -> ParseErrorView {
        ParseErrorView { line: self.line as nat, reason: self.reason@ }
    }
}

impl ParseError {
    /// Describes the error.
    pub fn message(&self) -> (r: String)
        ensures
            r@ == "mountinfo line "@ + decimal(self@.line) + ": "@ + self@.reason,
    {
        let mut out = counted("mountinfo line ", self.line);
        out.append(": ");
        out.append(self.reason.as_str());
        out
    }
}

/// A parsed mount table.
#[derive(Debug, PartialEq, Eq)]
pub struct MountTable {
    /// Entries in file order.
    pub mounts: Vec<MountInfo>,
}

/// The views of a list of entries.
pub open spec fn mount_views(mounts: Seq<MountInfo>) -> Seq<MountInfoView> {
    mounts.map_values(|m: MountInfo| m@)
}

/// The entries of the lines, empty lines passed over; the first line that
/// cannot be parsed decides.
pub open spec fn read_table(lines: Seq<Seq<u8>>) -> Result<Seq<MountInfoView>, ParseErrorView>
    decreases lines.len(),
{
    if lines.len() == 0 {
        Ok(Seq::empty())
    } else {
        match read_table(lines.drop_last()) {
            Err(e) => Err(e),
            Ok(mounts) => if lines.last().len() == 0 {
                Ok(mounts)
            } else {
                match read_line(lines.last()) {
                    Ok(m) => Ok(mounts.push(m)),
                    Err(reason) => Err(ParseErrorView { line: lines.len(), reason }),
                }
            },
        }
    }
}

proof fn lemma_table_error(lines: Seq<Seq<u8>>, n: int)
    requires
        0 <= n <= lines.len(),
        read_table(lines.take(n)) is Err,
    ensures
        read_table(lines) == read_table(lines.take(n)),
    decreases lines.len() - n,
{
    if n < lines.len() {
        assert(lines.take(n + 1).drop_last() =~= lines.take(n));
        lemma_table_error(lines, n + 1);
    } else {
        assert(lines.take(n) =~= lines);
    }
}

/// The first entry with that mount ID.
pub open spec fn first_with_id(mounts: Seq<MountInfoView>, id: u64) -> Option<MountInfoView>
    decreases mounts.len(),
{
    if mounts.len() == 0 {
        None
    } else {
        match first_with_id(mounts.drop_last(), id) {
            Some(m) => Some(m),
            None => if mounts.last().mount_id == id {
                Some(mounts.last())
            } else {
                None
            },
        }
    }
}

proof fn lemma_first_with_id(mounts: Seq<MountInfoView>, id: u64, n: int)
    requires
        0 <= n <= mounts.len(),
        first_with_id(mounts.take(n), id) is Some,
    ensures
        first_with_id(mounts, id) == first_with_id(mounts.take(n), id),
    decreases mounts.len() - n,
{
    if n < mounts.len() {
        assert(mounts.take(n + 1).drop_last() =~= mounts.take(n));
        lemma_first_with_id(mounts, id, n + 1);
    } else {
        assert(mounts.take(n) =~= mounts);
    }
}

impl MountTable {
    /// Parses a complete mountinfo file.
    pub fn parse(content: &[u8]) -> (r: Result<Self, ParseError>)
        ensures
            match r {
                Ok(t) => read_table(split_bytes(content@, 0x0a)) == Ok::<
                    Seq<MountInfoView>,
                    ParseErrorView,
                >(mount_views(t.mounts@)),
                Err(e) => read_table(split_bytes(content@, 0x0a)) == Err::<
                    Seq<MountInfoView>,
                    ParseErrorView,
                >(e@),
            },
    {
        let all = bytes_split(content, 0x0a);
        let ghost views = split_bytes(content@, 0x0a);
        let mut mounts: Vec<MountInfo> = Vec::new();
        let mut i: usize = 0;
        assert(mount_views(mounts@) =~= Seq::<MountInfoView>::empty());
        while i < all.len()
            invariant
                i <= all@.len(),
                views == byte_views(all@),
                views == split_bytes(content@, 0x0a),
                read_table(views.take(i as int)) == Ok::<Seq<MountInfoView>, ParseErrorView>(
                    mount_views(mounts@),
                ),
            decreases all@.len() - i,
        {
            let line = &all[i];
            let ghost before = mount_views(mounts@);
            proof {
                assert(views.take(i + 1).drop_last() =~= views.take(i as int));
                assert(views.take(i + 1).last() == line@);
            }
            if line.len() > 0 {
                match parse_line(line.as_slice()) {
                    Ok(m) => {
                        let ghost added = m@;
                        mounts.push(m);
                        assert(mount_views(mounts@) =~= before.push(added));
                    },
                    Err(reason) => {
                        proof {
                            lemma_table_error(views, i + 1);
                        }
                        return Err(ParseError { line: i + 1, reason });
                    },
                }
            }
            i += 1;
        }
        assert(views.take(views.len() as int) =~= views);
        Ok(MountTable { mounts })
    }

    /// Finds a mount by its ID.
    pub fn by_id(&self, mount_id: u64) -> (r: Option<&MountInfo>)
        ensures
            match r {
                Some(m) => first_with_id(mount_views(self.mounts@), mount_id) == Some(m@),
                None => first_with_id(mount_views(self.mounts@), mount_id) is None,
            },
    {
        let ghost views = mount_views(self.mounts@);
        let mut i: usize = 0;
        while i < self.mounts.len()
            invariant
                i <= self.mounts@.len(),
                views == mount_views(self.mounts@),
                first_with_id(views.take(i as int), mount_id) is None,
            decreases self.mounts@.len() - i,
        {
            proof {
                assert(views.take(i + 1).drop_last() =~= views.take(i as int));
                assert(views.take(i + 1).last() == self.mounts@[i as int]@);
            }
            if self.mounts[i].mount_id == mount_id {
                proof {
                    lemma_first_with_id(views, mount_id, i + 1);
                }
                return Some(&self.mounts[i]);
            }
            i += 1;
        }
        assert(views.take(views.len() as int) =~= views);
        None
    }
}

impl Default for MountTable {
    fn default() -> (r: Self)
        ensures
            r.mounts@.len() == 0,
    {
        MountTable { mounts: Vec::new() }
    }
}

// Laws.

/// A byte as the kernel writes it: space, tab, line feed and backslash are
/// escaped.
pub open spec fn kernel_byte(b: u8) -> Seq<u8> {
    if b == 0x20 || b == 0x09 || b == 0x0a || b == 0x5c {
        seq![0x5cu8, (0x30 + b / 64) as u8, (0x30 + b / 8 % 8) as u8, (0x30 + b % 8) as u8]
    } else {
        seq![b]
    }
}

/// A field as the kernel writes it.
pub open spec fn kernel_field(b: Seq<u8>) -> Seq<u8>
    decreases b.len(),
{
    if b.len() == 0 {
        Seq::empty()
    } else {
        kernel_byte(b[0]) + kernel_field(b.skip(1))
    }
}

/// Whatever bytes the kernel writes into a field are read back as they were.
pub proof fn law_fields_are_read_back(b: Seq<u8>)
    ensures
        unescaped(kernel_field(b)) == Ok::<Seq<u8>, EscapeError>(b),
    decreases b.len(),
{
    if b.len() > 0 {
        law_fields_are_read_back(b.skip(1));
        let head = kernel_byte(b[0]);
        let rest = kernel_field(b.skip(1));
        let all = head + rest;
        assert(seq![b[0]] + b.skip(1) =~= b);
        if head.len() == 4 {
            assert(all.skip(4) =~= rest);
            assert(escape_value(all) == b[0]);
        } else {
            assert(all.skip(1) =~= rest);
        }
    } else {
        assert(b =~= Seq::<u8>::empty());
    }
}

/// Fields with a space between each two.
pub open spec fn spaced(fields: Seq<Seq<u8>>) -> Seq<u8>
    decreases fields.len(),
{
    if fields.len() == 0 {
        Seq::empty()
    } else if fields.len() == 1 {
        fields[0]
    } else {
        spaced(fields.drop_last()).push(0x20) + fields.last()
    }
}

proof fn lemma_split_bytes_after(a: Seq<u8>, sep: u8, b: Seq<u8>)
    requires
        !b.contains(sep),
    ensures
        split_bytes(a.push(sep) + b, sep) == split_bytes(a, sep).push(b),
    decreases b.len(),
{
    let s = a.push(sep) + b;
    if b.len() == 0 {
        assert(s =~= a.push(sep));
        assert(s.drop_last() =~= a);
        assert(b =~= Seq::<u8>::empty());
    } else {
        let c = b.drop_last();
        assert forall|i: int| 0 <= i < c.len() implies c[i] != sep by {
            assert(c[i] == b[i]);
        }
        lemma_split_bytes_after(a, sep, c);
        assert(s.drop_last() =~= a.push(sep) + c);
        assert(s.last() == b.last());
        assert(b[b.len() - 1] == b.last());
        assert(c.push(b.last()) =~= b);
        assert(split_bytes(s, sep) =~= split_bytes(a, sep).push(b));
    }
}

proof fn lemma_split_bytes_whole(s: Seq<u8>, sep: u8)
    requires
        !s.contains(sep),
    ensures
        split_bytes(s, sep) == seq![s],
    decreases s.len(),
{
    if s.len() == 0 {
        assert(s =~= Seq::<u8>::empty());
    } else {
        let t = s.drop_last();
        assert forall|i: int| 0 <= i < t.len() implies t[i] != sep by {
            assert(t[i] == s[i]);
        }
        lemma_split_bytes_whole(t, sep);
        assert(s[s.len() - 1] == s.last());
        assert(t.push(s.last()) =~= s);
        assert(split_bytes(s, sep) =~= seq![s]);
    }
}

/// A line is split into the fields that it was made of.
pub proof fn law_fields_are_split_at_spaces(fields: Seq<Seq<u8>>)
    requires
        fields.len() > 0,
        forall|i: int| 0 <= i < fields.len() ==> !(#[trigger] fields[i]).contains(0x20),
    ensures
        split_bytes(spaced(fields), 0x20) == fields,
    decreases fields.len(),
{
    if fields.len() == 1 {
        lemma_split_bytes_whole(fields[0], 0x20);
        assert(seq![fields[0]] =~= fields);
    } else {
        let front = fields.drop_last();
        assert forall|i: int| 0 <= i < front.len() implies !(#[trigger] front[i]).contains(
            0x20,
        ) by {
            assert(front[i] == fields[i]);
        }
        law_fields_are_split_at_spaces(front);
        assert(fields[fields.len() - 1] == fields.last());
        lemma_split_bytes_after(spaced(front), 0x20, fields.last());
        assert(front.push(fields.last()) =~= fields);
    }
}

/// A number in decimal digits, as bytes.
pub open spec fn digit_bytes(n: nat) -> Seq<u8> {
    encode_utf8(decimal(n))
}

proof fn lemma_digit_bytes(n: nat)
    ensures
        widened(digit_bytes(n)) == decimal(n),
{
    let s = decimal(n);
    law_decimals_are_read_back(n, n);
    assert(vstd::utf8::is_ascii_chars(s)) by {
        assert forall|i: int| 0 <= i < s.len() implies (#[trigger] s[i] as nat) < 128 by {
            assert('0' <= s[i] <= '9');
        }
    }
    vstd::utf8::is_ascii_chars_encode_utf8(s);
    let b = encode_utf8(s);
    assert forall|i: int| 0 <= i < s.len() implies widened(b)[i] == s[i] by {
        assert('0' <= s[i] <= '9');
        assert(b[i] == s[i] as u8);
        assert(b[i] as char == s[i]);
    }
    assert(widened(b) =~= s);
}

proof fn lemma_separator(fields: Seq<Seq<u8>>, from: int, at: int)
    requires
        0 <= from <= at < fields.len(),
        fields[at] == seq![0x2du8],
        forall|i: int| from <= i < at ==> #[trigger] fields[i] != seq![0x2du8],
    ensures
        separator_at(fields, from) == Some(at),
    decreases at - from,
{
    if from < at {
        assert(fields[from] != seq![0x2du8]);
        lemma_separator(fields, from + 1, at);
    }
}

/// What stands at each place of a line is read into the field of that place:
/// the mount ID and its parent's first, then the device, the root, the mount
/// point and the options; after the optional fields and the dash the file
/// system type, the source and the options of the file system. A line is
/// refused only for its device or its optional fields here, where the numbers
/// and the escapes are in order.
pub proof fn law_lines_are_read_by_place(
    fields: Seq<Seq<u8>>,
    separator: int,
    mount_id: u64,
    parent_id: u64,
    major: u32,
    minor: u32,
    root: Seq<u8>,
    mount_point: Seq<u8>,
    source: Seq<u8>,
)
    requires
        6 <= separator,
        fields.len() == separator + 4,
        forall|i: int| 0 <= i < fields.len() ==> !(#[trigger] fields[i]).contains(0x20),
        fields[separator] == seq![0x2du8],
        forall|i: int| 0 <= i < separator ==> #[trigger] fields[i] != seq![0x2du8],
        fields[0] == digit_bytes(mount_id as nat),
        fields[1] == digit_bytes(parent_id as nat),
        fields[3] == kernel_field(root),
        fields[4] == kernel_field(mount_point),
        fields[separator + 2] == kernel_field(source),
    ensures
        ({
            let device = lossy_text(fields[2]) == decimal(major as nat) + seq![':'] + decimal(
                minor as nat,
            );
            let rest = Seq::new((separator - 6) as nat, |i: int| lossy_text(fields[6 + i]));
            match read_line(spaced(fields)) {
                Ok(m) => {
                    &&& m.mount_id == mount_id
                    &&& m.parent_id == parent_id
                    &&& device ==> m.major == major && m.minor == minor
                    &&& m.root == root
                    &&& m.mount_point == mount_point
                    &&& m.mount_options == lossy_text(fields[5])
                    &&& m.optional_fields == rest
                    &&& propagation_of(rest) == Ok::<Propagation, Seq<char>>(m.propagation)
                    &&& m.fs_type == lossy_text(fields[separator + 1])
                    &&& m.source == source
                    &&& m.super_options == lossy_text(fields[separator + 3])
                },
                Err(_) => !device || propagation_of(rest) is Err,
            }
        }),
{
    law_fields_are_split_at_spaces(fields);
    lemma_separator(fields, 0, separator);
    lemma_digit_bytes(mount_id as nat);
    lemma_digit_bytes(parent_id as nat);
    law_decimals_are_read_back(mount_id as nat, u64::MAX as nat);
    law_decimals_are_read_back(parent_id as nat, u64::MAX as nat);
    law_fields_are_read_back(root);
    law_fields_are_read_back(mount_point);
    law_fields_are_read_back(source);
    let rest = Seq::new((separator - 6) as nat, |i: int| lossy_text(fields[6 + i]));
    assert(optionals(fields, separator) =~= rest);
    if lossy_text(fields[2]) == decimal(major as nat) + seq![':'] + decimal(minor as nat) {
        law_decimals_are_read_back(major as nat, u32::MAX as nat);
        law_decimals_are_read_back(minor as nat, u32::MAX as nat);
        lemma_digit_bytes(major as nat);
        lemma_digit_bytes(minor as nat);
        assert(!decimal(major as nat).contains(':')) by {
            if decimal(major as nat).contains(':') {
                let i = choose|i: int|
                    0 <= i < decimal(major as nat).len() && decimal(major as nat)[i] == ':';
                assert('0' <= decimal(major as nat)[i] <= '9');
            }
        }
        law_texts_are_split_at_the_first(decimal(major as nat), ':', decimal(minor as nat));
        assert(device_of(fields[2]) == Ok::<(u32, u32), Seq<char>>((major, minor)));
    }
}

/// A shared mount is told by its peer group, a slave by its master, and one
/// that is both by both; without either it is private.
pub proof fn law_propagation_is_told_by_its_fields(peer: u64, from: u64)
    ensures
        ({
            let shared = "shared:"@ + decimal(peer as nat);
            let slave = "master:"@ + decimal(from as nat);
            &&& propagation_of(Seq::empty()) == Ok::<Propagation, Seq<char>>(Propagation::Private)
            &&& propagation_of(seq![shared]) == Ok::<Propagation, Seq<char>>(
                Propagation::Shared { peer_group: peer },
            )
            &&& propagation_of(seq![slave]) == Ok::<Propagation, Seq<char>>(
                Propagation::Slave { master: from },
            )
            &&& propagation_of(seq![shared, slave]) == Ok::<Propagation, Seq<char>>(
                Propagation::SharedAndSlave { peer_group: peer, master: from },
            )
            &&& propagation_of(seq![slave, shared]) == Ok::<Propagation, Seq<char>>(
                Propagation::SharedAndSlave { peer_group: peer, master: from },
            )
        }),
{
    reveal_strlit("shared:");
    reveal_strlit("master:");
    let shared = "shared:"@ + decimal(peer as nat);
    let slave = "master:"@ + decimal(from as nat);
    lemma_digit_bytes(peer as nat);
    lemma_digit_bytes(from as nat);
    law_decimals_are_read_back(peer as nat, u64::MAX as nat);
    law_decimals_are_read_back(from as nat, u64::MAX as nat);
    assert(shared.take(7) =~= "shared:"@);
    assert(shared.skip(7) =~= decimal(peer as nat));
    assert(slave.take(7) =~= "master:"@);
    assert(slave.skip(7) =~= decimal(from as nat));
    assert(slave.take(7) != "shared:"@) by {
        assert(slave.take(7)[0] == 'm');
        assert("shared:"@[0] == 's');
    }
    reveal_with_fuel(read_optionals, 3);
    assert(seq![shared].drop_last() =~= Seq::empty());
    assert(seq![slave].drop_last() =~= Seq::empty());
    assert(seq![shared, slave].drop_last() =~= seq![shared]);
    assert(seq![slave, shared].drop_last() =~= seq![slave]);
    assert(begins(shared, "shared:"@));
    assert(begins(slave, "master:"@));
    assert(!begins(slave, "shared:"@));
    assert(read_optionals(seq![shared]) == Ok::<Peers, Seq<char>>(
        Peers { shared: Some(peer), master: None, unbindable: false },
    ));
    assert(read_optionals(seq![slave]) == Ok::<Peers, Seq<char>>(
        Peers { shared: None, master: Some(from), unbindable: false },
    ));
}

proof fn lemma_unbindable(fields: Seq<Seq<char>>)
    ensures
        read_optionals(fields) matches Ok(p) ==> (p.unbindable <==> fields.contains(
            "unbindable"@,
        )),
    decreases fields.len(),
{
    reveal_strlit("shared:");
    reveal_strlit("master:");
    reveal_strlit("unbindable");
    if fields.len() > 0 {
        let front = fields.drop_last();
        lemma_unbindable(front);
        assert(fields[fields.len() - 1] == fields.last());
        if front.contains("unbindable"@) {
            let i = choose|i: int| 0 <= i < front.len() && front[i] == "unbindable"@;
            assert(fields[i] == "unbindable"@);
        }
        if fields.contains("unbindable"@) && fields.last() != "unbindable"@ {
            let i = choose|i: int| 0 <= i < fields.len() && fields[i] == "unbindable"@;
            assert(front[i] == "unbindable"@);
        }
        if fields.last() == "unbindable"@ {
            assert(fields.last().take(7)[0] == 'u');
            assert("shared:"@[0] == 's');
            assert("master:"@[0] == 'm');
        }
    }
}

/// A mount is unbindable exactly if one of its fields says so.
pub proof fn law_unbindable_mounts_say_so(fields: Seq<Seq<char>>)
    ensures
        propagation_of(fields) matches Ok(p) ==> (p is Unbindable <==> fields.contains(
            "unbindable"@,
        )),
{
    lemma_unbindable(fields);
}

/// Other optional fields do not matter.
pub proof fn law_other_optional_fields_do_not_matter(fields: Seq<Seq<char>>, other: Seq<char>)
    requires
        other != "unbindable"@,
        !("shared:"@ =~= other.take(7)),
        !("master:"@ =~= other.take(7)),
    ensures
        propagation_of(fields.push(other)) == propagation_of(fields),
{
    reveal_strlit("shared:");
    reveal_strlit("master:");
    assert(fields.push(other).drop_last() =~= fields);
}

/// A table that is read holds an entry for every line that is not empty; one
/// that is refused names the first line that cannot be read, and why.
pub proof fn law_tables_hold_their_lines(lines: Seq<Seq<u8>>)
    ensures
        match read_table(lines) {
            Ok(mounts) => {
                &&& forall|i: int|
                    #![trigger lines[i]]
                    0 <= i < lines.len() && lines[i].len() > 0 ==> read_line(lines[i]) is Ok
                        && mounts.contains(read_line(lines[i])->Ok_0)
                &&& mounts.len() <= lines.len()
                &&& (forall|i: int| 0 <= i < lines.len() ==> (#[trigger] lines[i]).len() > 0)
                    ==> mounts.len() == lines.len() && forall|i: int|
                    #![trigger lines[i]]
                    0 <= i < lines.len() ==> read_line(lines[i]) == Ok::<
                        MountInfoView,
                        Seq<char>,
                    >(mounts[i])
            },
            Err(e) => {
                &&& 1 <= e.line <= lines.len()
                &&& lines[e.line - 1].len() > 0
                &&& read_line(lines[e.line - 1]) == Err::<MountInfoView, Seq<char>>(e.reason)
                &&& forall|i: int|
                    #![trigger lines[i]]
                    0 <= i < e.line - 1 && lines[i].len() > 0 ==> read_line(lines[i]) is Ok
            },
        },
    decreases lines.len(),
{
    if lines.len() > 0 {
        let front = lines.drop_last();
        law_tables_hold_their_lines(front);
        assert forall|i: int| 0 <= i < front.len() implies #[trigger] lines[i] == front[i] by {
        }
        if let Ok(before) = read_table(front) {
            if let Ok(mounts) = read_table(lines) {
                assert forall|i: int|
                    #![trigger lines[i]]
                    0 <= i < lines.len() && lines[i].len() > 0 implies read_line(lines[i]) is Ok
                    && mounts.contains(read_line(lines[i])->Ok_0) by {
                    if i < front.len() {
                        assert(front[i].len() > 0);
                        let m = read_line(front[i])->Ok_0;
                        let k = choose|k: int| 0 <= k < before.len() && before[k] == m;
                        assert(mounts[k] == m);
                    } else {
                        assert(mounts[mounts.len() - 1] == read_line(lines[i])->Ok_0);
                    }
                }
                if forall|i: int| 0 <= i < lines.len() ==> (#[trigger] lines[i]).len() > 0 {
                    assert forall|i: int| 0 <= i < front.len() implies (#[trigger] front[i]).len()
                        > 0 by {
                        assert(lines[i].len() > 0);
                    }
                    assert(lines[lines.len() - 1].len() > 0);
                    assert forall|i: int|
                        #![trigger lines[i]]
                        0 <= i < lines.len() implies read_line(lines[i]) == Ok::<
                        MountInfoView,
                        Seq<char>,
                    >(mounts[i]) by {
                        if i < front.len() {
                            assert(front[i] == lines[i]);
                        }
                    }
                }
            }
        }
    }
}

/// A mount is found by its ID exactly if the table has one with that ID, and it
/// is then the first of these.
pub proof fn law_mounts_are_found_by_their_id(mounts: Seq<MountInfoView>, id: u64)
    ensures
        match first_with_id(mounts, id) {
            Some(m) => exists|i: int|
                0 <= i < mounts.len() && #[trigger] mounts[i] == m && m.mount_id == id
                    && forall|k: int| 0 <= k < i ==> (#[trigger] mounts[k]).mount_id != id,
            None => forall|i: int| 0 <= i < mounts.len() ==> (#[trigger] mounts[i]).mount_id != id,
        },
    decreases mounts.len(),
{
    if mounts.len() > 0 {
        let front = mounts.drop_last();
        law_mounts_are_found_by_their_id(front, id);
        assert forall|i: int| 0 <= i < front.len() implies #[trigger] mounts[i] == front[i] by {
        }
        match first_with_id(front, id) {
            Some(m) => {
                let i = choose|i: int|
                    0 <= i < front.len() && #[trigger] front[i] == m && m.mount_id == id
                        && forall|k: int| 0 <= k < i ==> (#[trigger] front[k]).mount_id != id;
                assert(mounts[i] == m);
                assert forall|k: int| 0 <= k < i implies (#[trigger] mounts[k]).mount_id != id by {
                    assert(front[k].mount_id != id);
                }
            },
            None => {
                assert forall|k: int| 0 <= k < front.len() implies (
                #[trigger] mounts[k]).mount_id != id by {
                    assert(front[k].mount_id != id);
                }
                assert(mounts[mounts.len() - 1] == mounts.last());
            },
        }
    }
}

} // verus!
