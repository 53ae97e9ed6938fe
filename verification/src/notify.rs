//! systemd service notifications (`sd_notify` protocol).
//!
//! When started by systemd with `Type=notify`, `NOTIFY_SOCKET` names a Unix
//! datagram socket. The program sends; what is sent, and where, is decided
//! here.
use vstd::prelude::*;
use vstd::string::*;

use crate::text::{chars_of, decimal, push_decimal};

verus! {

/// Where notifications go.
#[derive(Debug, PartialEq, Eq)]
pub enum NotifySocket {
    /// A socket in the filesystem.
    Path(Vec<u8>),
    /// A socket in the abstract namespace.
    Abstract(Vec<u8>),
}

/// Text where the socket is neither.
pub const INVALID_SOCKET: &'static str = "NOTIFY_SOCKET must be an absolute path or begin with '@'";

impl NotifySocket {
    /// Reads a `NOTIFY_SOCKET` value: an absolute path, or `@name` for an
    /// abstract socket.
    pub fn parse(value: &[u8]) -> (r: Result<Self, &'static str>)
        ensures
            match r {
                Ok(NotifySocket::Path(path)) => value@.len() > 0 && value@[0] == 0x2f && path@
                    == value@,
                Ok(NotifySocket::Abstract(name)) => value@.len() > 0 && value@[0] == 0x40 && name@
                    == value@.skip(1),
                Err(e) => (value@.len() == 0 || (value@[0] != 0x2f && value@[0] != 0x40)) && e@
                    == INVALID_SOCKET@,
            },
    {
        if value.len() == 0 {
            return Err(INVALID_SOCKET);
        }
        if value[0] == 0x2f {
            return Ok(NotifySocket::Path(bytes_from(value, 0)));
        }
        if value[0] == 0x40 {
            return Ok(NotifySocket::Abstract(bytes_from(value, 1)));
        }
        Err(INVALID_SOCKET)
    }
}

fn bytes_from(value: &[u8], from: usize) -> (r: Vec<u8>)
    requires
        from <= value@.len(),
    ensures
        r@ == value@.skip(from as int),
{
    let mut out: Vec<u8> = Vec::new();
    let mut i: usize = from;
    while i < value.len()
        invariant
            from <= i <= value@.len(),
            out@ =~= value@.subrange(from as int, i as int),
        decreases value@.len() - i,
    {
        out.push(value[i]);
        i += 1;
    }
    assert(out@ =~= value@.skip(from as int));
    out
}

/// A text on one line: line ends become spaces.
pub open spec fn on_one_line(s: Seq<char>) -> Seq<char> {
    s.map_values(
        |c: char|
            if c == '\n' || c == '\r' {
                ' '
            } else {
                c
            },
    )
}

/// A text on one line.
pub fn one_line(s: &str) -> (r: String)
    ensures
        r@ == on_one_line(s@),
{
    let v = chars_of(s);
    let mut out = String::new();
    let mut i: usize = 0;
    while i < v.len()
        invariant
            i <= v@.len(),
            v@ == s@,
            out@ =~= on_one_line(s@).take(i as int),
        decreases v@.len() - i,
    {
        let c = v[i];
        out.push(
            if c == '\n' || c == '\r' {
                ' '
            } else {
                c
            },
        );
        i += 1;
    }
    assert(out@ =~= on_one_line(s@));
    out
}

/// A status never breaks the protocol: on one line, it holds no line end.
pub proof fn law_status_is_one_line(s: Seq<char>)
    ensures
        !on_one_line(s).contains('\n'),
        !on_one_line(s).contains('\r'),
        on_one_line(on_one_line(s)) == on_one_line(s),
{
    assert(on_one_line(on_one_line(s)) =~= on_one_line(s));
}

/// The status line that the service manager shows.
#[derive(Debug, PartialEq, Eq)]
pub struct StatusLine {
    last: String,
}

impl View for StatusLine {
    type V = Seq<char>;

    closed spec fn view(&self) -> Seq<char> {
        self.last@
    }
}

impl Default for StatusLine {
    fn default() -> (r: Self)
        ensures
            r@.len() == 0,
    {
        StatusLine { last: String::new() }
    }
}

impl StatusLine {
    /// The message that startup (or a reload) is complete.
    pub fn ready(&mut self, status: &str) -> (r: String)
        ensures
            r@ == "READY=1\nSTATUS="@ + on_one_line(status@),
            final(self)@ == on_one_line(status@),
    {
        let status = one_line(status);
        let mut out = String::new();
        out.append("READY=1\nSTATUS=");
        out.append(status.as_str());
        assert(out@ =~= "READY=1\nSTATUS="@ + status@);
        self.last = status;
        out
    }

    /// The message with a new status line, if it changed.
    pub fn status(&mut self, status: &str) -> (r: Option<String>)
        ensures
            match r {
                Some(message) => old(self)@ != on_one_line(status@) && message@ == "STATUS="@
                    + on_one_line(status@),
                None => old(self)@ == on_one_line(status@),
            },
            final(self)@ == on_one_line(status@),
    {
        let status = one_line(status);
        if crate::text::same(self.last.as_str(), status.as_str()) {
            return None;
        }
        let mut out = String::new();
        out.append("STATUS=");
        out.append(status.as_str());
        assert(out@ =~= "STATUS="@ + status@);
        self.last = status;
        Some(out)
    }
}

/// A time in microseconds; a negative part counts as nothing.
pub open spec fn microseconds(sec: i64, nsec: i64) -> int {
    (if sec < 0 {
        0
    } else {
        sec as int
    }) * 1_000_000 + (if nsec < 0 {
        0
    } else {
        nsec as int
    }) / 1000
}

/// A monotonic time in microseconds.
pub fn monotonic_usec(sec: i64, nsec: i64) -> (r: u64)
    requires
        microseconds(sec, nsec) <= u64::MAX,
    ensures
        r == microseconds(sec, nsec),
{
    let whole: u64 = if sec < 0 {
        0
    } else {
        sec as u64
    };
    let rest: u64 = if nsec < 0 {
        0
    } else {
        nsec as u64
    };
    whole * 1_000_000 + rest / 1000
}

/// The message that a configuration reload has started, at a monotonic time
/// in microseconds.
pub fn reloading(usec: u64) -> (r: String)
    ensures
        r@ == "RELOADING=1\nMONOTONIC_USEC="@ + decimal(usec as nat)
            + "\nSTATUS=Reloading configuration"@,
{
    let mut out = String::new();
    out.append("RELOADING=1\nMONOTONIC_USEC=");
    push_decimal(&mut out, usec);
    out.append("\nSTATUS=Reloading configuration");
    assert(out@ =~= "RELOADING=1\nMONOTONIC_USEC="@ + decimal(usec as nat)
        + "\nSTATUS=Reloading configuration"@);
    out
}

/// The message that the daemon is shutting down.
pub const STOPPING: &'static str = "STOPPING=1\nSTATUS=Stopping; mounts are preserved";

/// Only line ends change: each becomes a space, and the rest stays as it is.
pub proof fn law_only_line_ends_change(s: Seq<char>, i: int)
    requires
        0 <= i < s.len(),
    ensures
        on_one_line(s).len() == s.len(),
        s[i] == '\n' || s[i] == '\r' ==> on_one_line(s)[i] == ' ',
        s[i] != '\n' && s[i] != '\r' ==> on_one_line(s)[i] == s[i],
{
}

/// A time is told in whole microseconds, what is left of one being dropped.
pub proof fn law_times_are_told_in_microseconds(sec: i64, nsec: i64)
    requires
        0 <= sec,
        0 <= nsec,
    ensures
        microseconds(sec, nsec) * 1000 <= sec * 1_000_000_000 + nsec,
        sec * 1_000_000_000 + nsec < microseconds(sec, nsec) * 1000 + 1000,
{
}

} // verus!
