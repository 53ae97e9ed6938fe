//! Structured `key=value` (logfmt) log lines.
use vstd::prelude::*;
use vstd::string::*;

use crate::text::{chars_of, decimal, hex_digit, hexadecimal, push_hexadecimal};

use crate::parse::{
    law_decimals_are_read_back, law_texts_are_split_at_the_first, number, parse_u64, split_at_first,
    split_first, NumberError,
};

verus! {

/// Severity of a log line.
#[derive(Debug, Clone, Copy, PartialEq, Eq, PartialOrd, Ord, Hash, Structural)]
pub enum Severity {
    /// Something does not work.
    Error,
    /// Something needs attention.
    Warn,
    /// Something happened.
    Info,
    /// Detail for finding a fault.
    Debug,
    /// More detail.
    Trace,
}

impl Severity {
    /// The name of the severity.
    pub open spec fn text(self) -> Seq<char> {
        match self {
            Severity::Error => "error"@,
            Severity::Warn => "warn"@,
            Severity::Info => "info"@,
            Severity::Debug => "debug"@,
            Severity::Trace => "trace"@,
        }
    }

    /// Names the severity.
    pub fn as_str(&self) -> (r: &'static str)
        ensures
            r@ == self.text(),
    {
        match self {
            Severity::Error => "error",
            Severity::Warn => "warn",
            Severity::Info => "info",
            Severity::Debug => "debug",
            Severity::Trace => "trace",
        }
    }
}

/// A log level accepted on the command line.
#[derive(Debug, Clone, Copy, PartialEq, Eq, Structural)]
pub struct LogLevel(pub Severity);

/// A character in lower case, if it is an ASCII letter.
pub open spec fn lower(c: char) -> char {
    if 'A' <= c <= 'Z' {
        ((c as u32) + 32) as char
    } else {
        c
    }
}

/// Text with its ASCII letters in lower case.
pub open spec fn lowered(s: Seq<char>) -> Seq<char> {
    s.map_values(|c: char| lower(c))
}

/// The severity that a text names, in any case.
pub open spec fn severity_of(s: Seq<char>) -> Option<Severity> {
    if lowered(s) == "error"@ {
        Some(Severity::Error)
    } else if lowered(s) == "warn"@ {
        Some(Severity::Warn)
    } else if lowered(s) == "info"@ {
        Some(Severity::Info)
    } else if lowered(s) == "debug"@ {
        Some(Severity::Debug)
    } else if lowered(s) == "trace"@ {
        Some(Severity::Trace)
    } else {
        None
    }
}

fn lower_text(s: &str) -> (r: String)
    ensures
        r@ == lowered(s@),
{
    let v = chars_of(s);
    let mut out = String::new();
    let mut i: usize = 0;
    while i < v.len()
        invariant
            i <= v@.len(),
            out@ == lowered(v@.take(i as int)),
        decreases v@.len() - i,
    {
        let c = v[i];
        let low = if 'A' <= c && c <= 'Z' { (c as u8 + 32) as char } else { c };
        assert(low == lower(c));
        let ghost before = out@;
        out.push(low);
        i += 1;
        assert(out@ =~= lowered(v@.take(i as int)));
    }
    assert(v@.take(v@.len() as int) =~= v@);
    out
}

impl LogLevel {
    /// Parses a level given on the command line.
    pub fn parse(s: &str) -> (r: Result<Self, String>)
        ensures
            match r {
                Ok(level) => severity_of(s@) == Some(level.0),
                Err(message) => severity_of(s@) is None && message@ == "invalid log level '"@ + s@
                    + "' (expected error, warn, info, debug or trace)"@,
            },
    {
        let low = lower_text(s);
        let low = low.as_str();
        if crate::text::same(low, "error") {
            return Ok(LogLevel(Severity::Error));
        }
        if crate::text::same(low, "warn") {
            return Ok(LogLevel(Severity::Warn));
        }
        if crate::text::same(low, "info") {
            return Ok(LogLevel(Severity::Info));
        }
        if crate::text::same(low, "debug") {
            return Ok(LogLevel(Severity::Debug));
        }
        if crate::text::same(low, "trace") {
            return Ok(LogLevel(Severity::Trace));
        }
        let mut message = String::new();
        message.append("invalid log level '");
        message.append(s);
        message.append("' (expected error, warn, info, debug or trace)");
        Err(message)
    }
}

impl std::str::FromStr for LogLevel {
    type Err = String;

    fn from_str(s: &str) -> (r: Result<Self, String>)
        ensures
            match r {
                Ok(level) => severity_of(s@) == Some(level.0),
                Err(message) => severity_of(s@) is None && message@ == "invalid log level '"@ + s@
                    + "' (expected error, warn, info, debug or trace)"@,
            },
    {
        Self::parse(s)
    }
}

/// A control character.
pub open spec fn control(c: char) -> bool {
    c <= '\u{1f}' || '\u{7f}' <= c <= '\u{9f}'
}

/// Whether a character cannot stand in a bare value.
pub open spec fn special(c: char) -> bool {
    c == ' ' || c == '=' || c == '"' || c == '\\' || control(c)
}

/// One character within a quoted value.
pub open spec fn quoted_char(c: char) -> Seq<char> {
    if c == '"' {
        seq!['\\', '"']
    } else if c == '\\' {
        seq!['\\', '\\']
    } else if c == '\n' {
        seq!['\\', 'n']
    } else if c == '\r' {
        seq!['\\', 'r']
    } else if c == '\t' {
        seq!['\\', 't']
    } else if control(c) {
        seq!['\\', 'u', '{'] + hexadecimal((c as u32) as nat) + seq!['}']
    } else {
        seq![c]
    }
}

/// The characters of a quoted value.
pub open spec fn quoted_chars(s: Seq<char>) -> Seq<char>
    decreases s.len(),
{
    if s.len() == 0 {
        Seq::empty()
    } else {
        quoted_chars(s.drop_last()) + quoted_char(s.last())
    }
}

/// Whether a value has to be quoted.
pub open spec fn needs_quotes(s: Seq<char>) -> bool {
    s.len() == 0 || exists|i: int| 0 <= i < s.len() && special(#[trigger] s[i])
}

/// A value as it stands in a log line.
pub open spec fn quoted(s: Seq<char>) -> Seq<char> {
    if needs_quotes(s) {
        seq!['"'] + quoted_chars(s) + seq!['"']
    } else {
        s
    }
}

fn is_control(c: char) -> (r: bool)
    ensures
        r == control(c),
{
    c <= '\u{1f}' || ('\u{7f}' <= c && c <= '\u{9f}')
}

/// Quotes a logfmt value if needed.
pub fn quote(value: &str) -> (r: String)
    ensures
        r@ == quoted(value@),
{
    let v = chars_of(value);
    let mut needed = v.len() == 0;
    let mut i: usize = 0;
    while i < v.len()
        invariant
            i <= v@.len(),
            v@ == value@,
            needed == (v@.len() == 0 || exists|j: int| 0 <= j < i && special(#[trigger] v@[j])),
        decreases v@.len() - i,
    {
        let c = v[i];
        if c == ' ' || c == '=' || c == '"' || c == '\\' || is_control(c) {
            assert(special(v@[i as int]));
            needed = true;
        } else {
            assert(!special(v@[i as int]));
        }
        i += 1;
    }
    if !needed {
        return value.to_owned();
    }
    let mut out = String::new();
    out.push('"');
    let mut i: usize = 0;
    assert(out@ =~= seq!['"'] + quoted_chars(v@.take(0)));
    while i < v.len()
        invariant
            i <= v@.len(),
            v@ == value@,
            out@ == seq!['"'] + quoted_chars(v@.take(i as int)),
        decreases v@.len() - i,
    {
        let c = v[i];
        let ghost before = out@;
        proof {
            assert(v@.take(i + 1).drop_last() =~= v@.take(i as int));
        }
        if c == '"' || c == '\\' {
            out.push('\\');
            out.push(c);
        } else if c == '\n' || c == '\r' || c == '\t' {
            out.push('\\');
            out.push(if c == '\n' { 'n' } else if c == '\r' { 'r' } else { 't' });
        } else if is_control(c) {
            out.push('\\');
            out.push('u');
            out.push('{');
            let code: u32 = c as u32;
            push_hexadecimal(&mut out, code as u64);
            out.push('}');
        } else {
            out.push(c);
        }
        assert(out@ =~= before + quoted_char(c));
        i += 1;
        assert(out@ =~= seq!['"'] + quoted_chars(v@.take(i as int)));
    }
    assert(v@.take(v@.len() as int) =~= v@);
    out.push('"');
    assert(out@ =~= quoted(value@));
    out
}

proof fn lemma_hexadecimal_safe(n: nat)
    ensures
        forall|i: int| 0 <= i < hexadecimal(n).len() ==> !control(#[trigger] hexadecimal(n)[i]),
    decreases n,
{
    assert('0' <= crate::text::hex_digit(n % 16) <= 'f');
    if n >= 16 {
        lemma_hexadecimal_safe(n / 16);
        let front = hexadecimal(n / 16);
        assert forall|i: int| 0 <= i < hexadecimal(n).len() implies !control(
            #[trigger] hexadecimal(n)[i],
        ) by {
            if i < front.len() {
                assert(hexadecimal(n)[i] == front[i]);
            }
        }
    }
}

proof fn lemma_quoted_chars_safe(s: Seq<char>)
    ensures
        forall|i: int| 0 <= i < quoted_chars(s).len() ==> !control(#[trigger] quoted_chars(s)[i]),
    decreases s.len(),
{
    if s.len() > 0 {
        let front = quoted_chars(s.drop_last());
        let last = quoted_char(s.last());
        lemma_quoted_chars_safe(s.drop_last());
        lemma_hexadecimal_safe((s.last() as u32) as nat);
        let all = quoted_chars(s);
        assert forall|i: int| 0 <= i < last.len() implies !control(#[trigger] last[i]) by {
            let c = s.last();
            if control(c) && c != '\n' && c != '\r' && c != '\t' {
                let hex = hexadecimal((c as u32) as nat);
                if 3 <= i < 3 + hex.len() {
                    assert(last[i] == hex[i - 3]);
                }
            }
        }
        assert forall|i: int| 0 <= i < all.len() implies !control(#[trigger] all[i]) by {
            if i < front.len() {
                assert(all[i] == front[i]);
            } else {
                assert(all[i] == last[i - front.len()]);
            }
        }
    }
}

/// A quoted value holds no control character, so no value can begin a new
/// log line.
pub proof fn law_quoted_is_one_line(s: Seq<char>)
    ensures
        forall|i: int| 0 <= i < quoted(s).len() ==> !control(#[trigger] quoted(s)[i]),
        quoted(s).len() > 0,
{
    if needs_quotes(s) {
        lemma_quoted_chars_safe(s);
        let all = quoted(s);
        let inner = quoted_chars(s);
        assert forall|i: int| 0 <= i < all.len() implies !control(#[trigger] all[i]) by {
            if 1 <= i < 1 + inner.len() {
                assert(all[i] == inner[i - 1]);
            }
        }
    } else {
        assert forall|i: int| 0 <= i < s.len() implies !control(#[trigger] s[i]) by {
            assert(!special(s[i]));
        }
    }
}

/// A quoted value, from its first character.
proof fn lemma_quoted_chars_first(s: Seq<char>)
    requires
        s.len() > 0,
    ensures
        quoted_chars(s) == quoted_char(s[0]) + quoted_chars(s.skip(1)),
    decreases s.len(),
{
    if s.len() == 1 {
        assert(s.drop_last() =~= Seq::empty());
        assert(s.skip(1) =~= Seq::empty());
        assert(quoted_chars(s) =~= quoted_char(s[0]) + quoted_chars(s.skip(1)));
    } else {
        lemma_quoted_chars_first(s.drop_last());
        assert(s.drop_last().skip(1) =~= s.skip(1).drop_last());
        assert(quoted_chars(s) =~= quoted_char(s[0]) + quoted_chars(s.skip(1)));
    }
}

/// The digits of a number of at most two digits in base 16 tell which number it
/// is.
proof fn lemma_short_hexadecimal(n: nat)
    requires
        n < 256,
    ensures
        n < 16 ==> hexadecimal(n) == seq![hex_digit(n)],
        n >= 16 ==> hexadecimal(n) == seq![hex_digit(n / 16), hex_digit(n % 16)],
{
    if n >= 16 {
        assert(hexadecimal(n / 16) =~= seq![hex_digit(n / 16)]);
        assert(hexadecimal(n) =~= seq![hex_digit(n / 16), hex_digit(n % 16)]);
    }
}

/// Different digits have different characters, and none is a brace.
proof fn lemma_hex_digit(m: nat, n: nat)
    requires
        m < 16,
        n < 16,
    ensures
        hex_digit(m) == hex_digit(n) ==> m == n,
        hex_digit(m) != '}',
{
}

/// What follows tells which character was quoted first.
proof fn lemma_quoted_char_apart(c: char, d: char, x: Seq<char>, y: Seq<char>)
    requires
        quoted_char(c) + x == quoted_char(d) + y,
    ensures
        c == d,
        x == y,
{
    let s = quoted_char(c) + x;
    let t = quoted_char(d) + y;
    let m = (c as u32) as nat;
    let n = (d as u32) as nat;
    assert(s[0] == t[0]);
    assert(s[0] == quoted_char(c)[0]);
    assert(t[0] == quoted_char(d)[0]);
    if s[0] == '\\' {
        assert(s[1] == t[1]);
        assert(s[1] == quoted_char(c)[1]);
        assert(t[1] == quoted_char(d)[1]);
        if s[1] == 'u' {
            lemma_short_hexadecimal(m);
            lemma_short_hexadecimal(n);
            assert(s[3] == quoted_char(c)[3]);
            assert(s[4] == quoted_char(c)[4]);
            assert(t[3] == quoted_char(d)[3]);
            assert(t[4] == quoted_char(d)[4]);
            if m < 16 {
                if n < 16 {
                    lemma_hex_digit(m, n);
                } else {
                    lemma_hex_digit(n % 16, 0);
                }
            } else if n < 16 {
                lemma_hex_digit(m % 16, 0);
            } else {
                lemma_hex_digit(m / 16, n / 16);
                lemma_hex_digit(m % 16, n % 16);
            }
            assert(m == n);
        }
    }
    assert(c == d);
    let k = quoted_char(c).len() as int;
    assert(s.skip(k) =~= x);
    assert(t.skip(k) =~= y);
}

proof fn lemma_quoted_chars_apart(a: Seq<char>, b: Seq<char>)
    requires
        quoted_chars(a) == quoted_chars(b),
    ensures
        a == b,
    decreases a.len(),
{
    if a.len() > 0 {
        lemma_quoted_chars_first(a);
    }
    if b.len() > 0 {
        lemma_quoted_chars_first(b);
    }
    if a.len() > 0 && b.len() > 0 {
        lemma_quoted_char_apart(a[0], b[0], quoted_chars(a.skip(1)), quoted_chars(b.skip(1)));
        lemma_quoted_chars_apart(a.skip(1), b.skip(1));
        assert(a =~= seq![a[0]] + a.skip(1));
        assert(b =~= seq![b[0]] + b.skip(1));
    } else {
        assert(a =~= b);
    }
}

proof fn lemma_quoted_chars_longer(s: Seq<char>)
    ensures
        quoted_chars(s).len() >= s.len(),
    decreases s.len(),
{
    if s.len() > 0 {
        lemma_quoted_chars_longer(s.drop_last());
    }
}

/// A value stands for itself exactly if it is not empty and holds no space, `=`,
/// `"`, backslash or control character; any other begins and ends with a `"`.
pub proof fn law_plain_values_stay_bare(s: Seq<char>)
    ensures
        quoted(s) == s <==> s.len() > 0 && forall|i: int| 0 <= i < s.len() ==> !special(#[trigger] s[i]),
        quoted(s) != s ==> quoted(s).len() >= 2 && quoted(s)[0] == '"' && quoted(s).last() == '"',
{
    lemma_quoted_chars_longer(s);
    if needs_quotes(s) {
        assert(quoted(s).len() > s.len());
    }
}

/// No two values look alike in a log line.
pub proof fn law_values_render_apart(a: Seq<char>, b: Seq<char>)
    ensures
        quoted(a) == quoted(b) ==> a == b,
{
    if quoted(a) == quoted(b) {
        if needs_quotes(a) && needs_quotes(b) {
            let n = quoted_chars(a).len() as int;
            assert(quoted(a).len() == n + 2);
            assert(quoted(a).subrange(1, n + 1) =~= quoted_chars(a));
            assert(quoted(b).subrange(1, n + 1) =~= quoted_chars(b));
            lemma_quoted_chars_apart(a, b);
        } else if needs_quotes(a) {
            assert(quoted(a)[0] == '"');
            assert(special(b[0]));
        } else if needs_quotes(b) {
            assert(quoted(b)[0] == '"');
            assert(special(a[0]));
        }
    }
}

/// A field of a log line.
#[derive(Debug, PartialEq, Eq)]
pub struct LogField {
    /// Key.
    pub key: &'static str,
    /// Value, not yet quoted.
    pub value: String,
}

/// What a field stands for.
#[verifier::ext_equal]
pub struct LogFieldView {
    /// Key.
    pub key: Seq<char>,
    /// Value, not yet quoted.
    pub value: Seq<char>,
}

impl View for LogField {
    type V = LogFieldView;

    open spec fn view(&self) -> LogFieldView {
        LogFieldView { key: self.key@, value: self.value@ }
    }
}

/// Something to log.
#[derive(Debug, PartialEq, Eq)]
pub struct LogRecord {
    /// Severity.
    pub severity: Severity,
    /// Fields, in the order in which they are written.
    pub fields: Vec<LogField>,
}

/// What a log record stands for.
#[verifier::ext_equal]
pub struct LogRecordView {
    /// Severity.
    pub severity: Severity,
    /// Fields, in the order in which they are written.
    pub fields: Seq<LogFieldView>,
}

/// The views of a list of fields.
pub open spec fn field_views(fields: Seq<LogField>) -> Seq<LogFieldView> {
    fields.map_values(|f: LogField| f@)
}

impl View for LogRecord {
    type V = LogRecordView;

    open spec fn view(&self) -> LogRecordView {
        LogRecordView { severity: self.severity, fields: field_views(self.fields@) }
    }
}

/// A field from its key and value.
pub open spec fn field(key: Seq<char>, value: Seq<char>) -> LogFieldView {
    LogFieldView { key, value }
}

impl LogRecord {
    /// A record without fields.
    pub fn new(severity: Severity) -> (r: Self)
        ensures
            r@ == (LogRecordView { severity, fields: Seq::empty() }),
    {
        let r = LogRecord { severity, fields: Vec::new() };
        assert(r@.fields =~= Seq::<LogFieldView>::empty());
        r
    }

    /// Adds a field.
    pub fn add(&mut self, key: &'static str, value: &str)
        ensures
            final(self)@ == (LogRecordView {
                severity: old(self)@.severity,
                fields: old(self)@.fields.push(field(key@, value@)),
            }),
    {
        let ghost before = field_views(self.fields@);
        self.fields.push(LogField { key, value: value.to_owned() });
        assert(field_views(self.fields@) =~= before.push(field(key@, value@)));
    }

    /// The record as a line of text, without the line feed.
    pub fn line(&self, timestamp: Option<&str>) -> (r: String)
        ensures
            r@ == line_text(self@, match timestamp {
                Some(t) => Some(t@),
                None => None,
            }),
    {
        let mut out = String::new();
        if let Some(t) = timestamp {
            out.append("ts=");
            out.append(t);
            out.append(" ");
        }
        out.append("level=");
        out.append(self.severity.as_str());
        let ghost head = out@;
        let ghost fields = self@.fields;
        let mut i: usize = 0;
        assert(out@ =~= head + fields_text(fields.take(0)));
        while i < self.fields.len()
            invariant
                i <= self.fields@.len(),
                fields == self@.fields,
                out@ == head + fields_text(fields.take(i as int)),
            decreases self.fields@.len() - i,
        {
            let ghost before = out@;
            proof {
                assert(fields.take(i + 1).drop_last() =~= fields.take(i as int));
                assert(fields.take(i + 1).last() == self.fields@[i as int]@);
            }
            out.append(" ");
            out.append(self.fields[i].key);
            out.append("=");
            out.append(quote(self.fields[i].value.as_str()).as_str());
            i += 1;
            assert(out@ =~= head + fields_text(fields.take(i as int)));
        }
        assert(fields.take(fields.len() as int) =~= fields);
        proof {
            let t = match timestamp {
                Some(t) => Some(t@),
                None => None,
            };
            assert(out@ =~= line_text(self@, t));
        }
        out
    }
}

/// Fields as they stand in a line.
pub open spec fn fields_text(fields: Seq<LogFieldView>) -> Seq<char>
    decreases fields.len(),
{
    if fields.len() == 0 {
        Seq::empty()
    } else {
        fields_text(fields.drop_last()) + " "@ + fields.last().key + "="@ + quoted(
            fields.last().value,
        )
    }
}

/// A record as a line of text.
pub open spec fn line_text(record: LogRecordView, timestamp: Option<Seq<char>>) -> Seq<char> {
    (match timestamp {
        Some(t) => "ts="@ + t + " "@,
        None => Seq::empty(),
    }) + "level="@ + record.severity.text() + fields_text(record.fields)
}

/// Whether a value of `JOURNAL_STREAM` names the file with this device and
/// inode.
pub open spec fn names_stream(value: Seq<char>, device: u64, inode: u64) -> bool {
    match split_first(value, ':') {
        Some((d, i)) => number(d, 10, u64::MAX as nat) == Ok::<nat, NumberError>(device as nat)
            && number(i, 10, u64::MAX as nat) == Ok::<nat, NumberError>(inode as nat),
        None => false,
    }
}

/// Whether stderr is connected to the systemd journal, from the value of
/// `JOURNAL_STREAM` and the device and inode of stderr, as far as they are
/// known.
pub fn stderr_is_journal(value: Option<&str>, stderr: Option<(u64, u64)>) -> (r: bool)
    ensures
        r == (value matches Some(v) && stderr matches Some(file) && names_stream(
            v@,
            file.0,
            file.1,
        )),
{
    match (value, stderr) {
        (Some(v), Some((device, inode))) => match split_at_first(v, ':') {
            Some((d, i)) => match (parse_u64(d.as_str()), parse_u64(i.as_str())) {
                (Ok(d), Ok(i)) => d == device && i == inode,
                _ => false,
            },
            None => false,
        },
        _ => false,
    }
}

impl Severity {
    /// How many severities are more serious.
    pub open spec fn rank(self) -> int {
        match self {
            Severity::Error => 0,
            Severity::Warn => 1,
            Severity::Info => 2,
            Severity::Debug => 3,
            Severity::Trace => 4,
        }
    }
}

impl LogLevel {
    /// Whether records of a severity are written at this level.
    pub fn shows(&self, severity: Severity) -> (r: bool)
        ensures
            r <==> severity.rank() <= self.0.rank(),
    {
        match severity {
            Severity::Error => true,
            Severity::Warn => self.0 != Severity::Error,
            Severity::Info => self.0 != Severity::Error && self.0 != Severity::Warn,
            Severity::Debug => self.0 == Severity::Debug || self.0 == Severity::Trace,
            Severity::Trace => self.0 == Severity::Trace,
        }
    }
}

/// Whether two characters are the same but for the case of an ASCII letter.
pub open spec fn same_letter(a: char, b: char) -> bool {
    ||| a == b
    ||| 'A' <= a <= 'Z' && b as int == a as int + 32
    ||| 'A' <= b <= 'Z' && a as int == b as int + 32
}

/// A level is read from its name, in any case, and from nothing else.
pub proof fn law_levels_are_read_by_name(s: Seq<char>, level: Severity)
    ensures
        severity_of(s) == Some(level) <==> s.len() == level.text().len() && forall|i: int|
            #![trigger s[i]]
            0 <= i < s.len() ==> same_letter(s[i], level.text()[i]),
        severity_of(level.text()) == Some(level),
{
    reveal_strlit("error");
    reveal_strlit("warn");
    reveal_strlit("info");
    reveal_strlit("debug");
    reveal_strlit("trace");
    let name = level.text();
    assert(forall|i: int| 0 <= i < name.len() ==> 'a' <= #[trigger] name[i] <= 'z');
    assert(lowered(name) =~= name);
    assert("error"@[0] == 'e' && "warn"@[0] == 'w' && "info"@[0] == 'i' && "debug"@[0] == 'd'
        && "trace"@[0] == 't');
    assert(severity_of(s) == Some(level) <==> lowered(s) == name);
    if lowered(s) == name {
        assert forall|i: int| #![trigger s[i]] 0 <= i < s.len() implies same_letter(
            s[i],
            name[i],
        ) by {
            assert(lowered(s)[i] == lower(s[i]));
        }
    }
    if s.len() == name.len() && forall|i: int|
        #![trigger s[i]]
        0 <= i < s.len() ==> same_letter(s[i], name[i]) {
        assert forall|i: int| 0 <= i < s.len() implies lowered(s)[i] == name[i] by {
            assert(same_letter(s[i], name[i]));
            assert('a' <= name[i] <= 'z');
        }
        assert(lowered(s) =~= name);
    }
}

/// The more serious a severity, the lower the level that shows it.
pub proof fn law_severities_are_ordered()
    ensures
        Severity::Error.rank() < Severity::Warn.rank(),
        Severity::Warn.rank() < Severity::Info.rank(),
        Severity::Info.rank() < Severity::Debug.rank(),
        Severity::Debug.rank() < Severity::Trace.rank(),
{
}

/// A value with a space, an equals sign, a quote, a backslash or a line end in
/// it is quoted, and so is an empty one; letters, digits and the like are not.
pub proof fn law_separators_are_quoted(s: Seq<char>, i: int)
    ensures
        quoted(Seq::empty()) == seq!['"', '"'],
        0 <= i < s.len() && (s[i] == ' ' || s[i] == '=' || s[i] == '"' || s[i] == '\\' || s[i] < ' '
            || s[i] == '\u{7f}') ==> quoted(s).len() >= 2 && quoted(s)[0] == '"'
            && quoted(s).last() == '"',
        s.len() > 0 && (forall|k: int|
            #![trigger s[k]]
            0 <= k < s.len() ==> s[k] > ' ' && s[k] < '\u{7f}' && s[k] != '=' && s[k] != '"' && s[k]
                != '\\') ==> quoted(s) == s,
{
    law_plain_values_stay_bare(s);
    assert(quoted(Seq::empty()) =~= seq!['"', '"']);
    if 0 <= i < s.len() && (s[i] == ' ' || s[i] == '=' || s[i] == '"' || s[i] == '\\' || s[i] < ' '
        || s[i] == '\u{7f}') {
        assert(special(s[i]));
    }
}

/// Inside quotes, quotes, backslashes and line ends are escaped, and what can be
/// printed stands for itself.
pub proof fn law_quoted_characters_are_escaped(s: Seq<char>, c: char)
    ensures
        quoted_chars(s.push('"')) == quoted_chars(s) + seq!['\\', '"'],
        quoted_chars(s.push('\\')) == quoted_chars(s) + seq!['\\', '\\'],
        quoted_chars(s.push('\n')) == quoted_chars(s) + seq!['\\', 'n'],
        quoted_chars(s.push('\r')) == quoted_chars(s) + seq!['\\', 'r'],
        quoted_chars(s.push('\t')) == quoted_chars(s) + seq!['\\', 't'],
        ' ' <= c < '\u{7f}' && c != '"' && c != '\\' ==> quoted_chars(s.push(c)) == quoted_chars(
            s,
        ).push(c),
{
    assert(s.push('"').drop_last() =~= s);
    assert(s.push('\\').drop_last() =~= s);
    assert(s.push('\n').drop_last() =~= s);
    assert(s.push('\r').drop_last() =~= s);
    assert(s.push('\t').drop_last() =~= s);
    assert(s.push(c).drop_last() =~= s);
    if ' ' <= c < '\u{7f}' && c != '"' && c != '\\' {
        assert(quoted_chars(s.push(c)) =~= quoted_chars(s).push(c));
    }
}

/// A line begins with its time, where it has one, and its level. Each field
/// follows in order, behind a space, as its key and its value.
pub proof fn law_lines_hold_their_fields(
    severity: Severity,
    fields: Seq<LogFieldView>,
    more: LogFieldView,
    time: Seq<char>,
)
    ensures
        line_text(LogRecordView { severity, fields: Seq::empty() }, None) == "level="@
            + severity.text(),
        line_text(LogRecordView { severity, fields: Seq::empty() }, Some(time)) == "ts="@ + time
            + " level="@ + severity.text(),
        line_text(LogRecordView { severity, fields: fields.push(more) }, None) == line_text(
            LogRecordView { severity, fields },
            None,
        ) + " "@ + more.key + "="@ + quoted(more.value),
        line_text(LogRecordView { severity, fields: fields.push(more) }, Some(time)) == line_text(
            LogRecordView { severity, fields },
            Some(time),
        ) + " "@ + more.key + "="@ + quoted(more.value),
{
    reveal_strlit(" ");
    reveal_strlit("level=");
    reveal_strlit(" level=");
    assert(fields.push(more).drop_last() =~= fields);
    assert(" "@ + "level="@ =~= " level="@);
    let none = LogRecordView { severity, fields: Seq::empty() };
    assert(line_text(none, None) =~= "level="@ + severity.text());
    assert(line_text(none, Some(time)) =~= "ts="@ + time + " level="@ + severity.text());
    let longer = LogRecordView { severity, fields: fields.push(more) };
    let record = LogRecordView { severity, fields };
    assert(line_text(longer, None) =~= line_text(record, None) + " "@ + more.key + "="@ + quoted(
        more.value,
    ));
    assert(line_text(longer, Some(time)) =~= line_text(record, Some(time)) + " "@ + more.key + "="@
        + quoted(more.value));
}

/// The journal is told by the device and the inode of its stream, in that order.
pub proof fn law_streams_are_told_by_device_and_inode(d: u64, i: u64, device: u64, inode: u64)
    ensures
        names_stream(decimal(d as nat) + seq![':'] + decimal(i as nat), device, inode) <==> d
            == device && i == inode,
{
    law_decimals_are_read_back(d as nat, u64::MAX as nat);
    law_decimals_are_read_back(i as nat, u64::MAX as nat);
    assert(!decimal(d as nat).contains(':')) by {
        if decimal(d as nat).contains(':') {
            let k = choose|k: int|
                0 <= k < decimal(d as nat).len() && decimal(d as nat)[k] == ':';
            assert('0' <= decimal(d as nat)[k] <= '9');
        }
    }
    law_texts_are_split_at_the_first(decimal(d as nat), ':', decimal(i as nat));
}

} // verus!
