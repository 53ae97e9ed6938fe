//! Points in time, as they are recorded in the state file.
use vstd::prelude::*;
use vstd::string::*;

verus! {

/// The text of the instant `nanoseconds` after the Unix epoch, or `None` where
/// the instant lies outside the years that can be written: what
/// `jiff::Timestamp::from_nanosecond` and the `Display` of the timestamp give.
pub uninterp spec fn instant_text(nanoseconds: i128) -> Option<Seq<char>>;

/// The instant that a text stands for, in nanoseconds after the Unix epoch, or
/// why it stands for none: what parsing it as a `jiff::Timestamp` gives.
pub uninterp spec fn instant_of(text: Seq<char>) -> Result<i128, Seq<char>>;

/// The text of the instant `nanoseconds` after the Unix epoch in a format, or
/// `None` where the instant lies outside the years that can be written: what
/// `jiff::Timestamp::from_nanosecond` and `strftime` give.
pub uninterp spec fn instant_formatted(nanoseconds: i128, format: Seq<char>) -> Option<Seq<char>>;

/// A point in time that can be written as text.
#[derive(Debug, Clone, Copy, PartialEq, Eq, PartialOrd, Ord, Hash)]
pub struct Timestamp {
    nanoseconds: i128,
}

impl View for Timestamp {
    type V = i128;

    closed spec fn view(&self) -> i128 {
        self.nanoseconds
    }
}

/// `jiff::Timestamp::from_nanosecond` and the timestamp's `Display`: the text
/// of an instant, `None` outside the range that jiff supports. What is written
/// is read back as the same instant.
#[verifier::external_body]
fn write_instant(nanoseconds: i128) -> (r: Option<String>)
    ensures
        match r {
            Some(text) => instant_text(nanoseconds) == Some(text@) && instant_of(text@)
                == Result::<i128, Seq<char>>::Ok(nanoseconds),
            None => instant_text(nanoseconds) is None,
        },
{
    jiff::Timestamp::from_nanosecond(nanoseconds).ok().map(|t| t.to_string())
}

/// `jiff::Timestamp`'s `FromStr` and `as_nanosecond`: the instant that a text
/// stands for, or the error's text where it is no timestamp. An instant that
/// was read can be written.
#[verifier::external_body]
fn read_instant(text: &str) -> (r: Result<i128, String>)
    ensures
        match r {
            Ok(n) => instant_of(text@) == Result::<i128, Seq<char>>::Ok(n) && instant_text(
                n,
            ) is Some,
            Err(e) => instant_of(text@) == Result::<i128, Seq<char>>::Err(e@),
        },
{
    text.parse::<jiff::Timestamp>().map(|t| t.as_nanosecond()).map_err(|e| e.to_string())
}

/// `jiff::Timestamp::from_nanosecond` and `strftime`: the text of an instant in
/// a format, `None` outside the range that jiff supports.
#[verifier::external_body]
fn format_instant(nanoseconds: i128, format: &str) -> (r: Option<String>)
    ensures
        match r {
            Some(text) => instant_formatted(nanoseconds, format@) == Some(text@),
            None => instant_formatted(nanoseconds, format@) is None,
        },
        r is None <==> instant_text(nanoseconds) is None,
{
    jiff::Timestamp::from_nanosecond(nanoseconds).ok().map(|t| t.strftime(format).to_string())
}

impl Timestamp {
    /// The instant can be written.
    #[verifier::type_invariant]
    pub open spec fn writable(&self) -> bool {
        instant_text(self@) is Some
    }

    /// The instant `nanoseconds` after the Unix epoch, if it can be written.
    pub fn new(nanoseconds: i128) -> (r: Option<Self>)
        ensures
            match r {
                Some(t) => t@ == nanoseconds && instant_text(nanoseconds) is Some,
                None => instant_text(nanoseconds) is None,
            },
    {
        match write_instant(nanoseconds) {
            Some(_) => Some(Timestamp { nanoseconds }),
            None => None,
        }
    }

    /// The instant that a text in RFC 3339 form stands for.
    pub fn parse(text: &str) -> (r: Result<Self, String>)
        ensures
            match r {
                Ok(t) => instant_of(text@) == Result::<i128, Seq<char>>::Ok(t@),
                Err(e) => instant_of(text@) == Result::<i128, Seq<char>>::Err(e@),
            },
    {
        match read_instant(text) {
            Ok(nanoseconds) => Ok(Timestamp { nanoseconds }),
            Err(e) => Err(e),
        }
    }

    /// The instant as text in RFC 3339 form. Reading the text gives the
    /// instant back.
    pub fn text(&self) -> (r: String)
        ensures
            instant_text(self@) == Some(r@),
            instant_of(r@) == Result::<i128, Seq<char>>::Ok(self@),
    {
        proof {
            use_type_invariant(self);
        }
        match write_instant(self.nanoseconds) {
            Some(text) => text,
            None => String::new(),
        }
    }

    /// The instant as text in a format of `strftime`.
    pub fn formatted(&self, format: &str) -> (r: String)
        ensures
            instant_formatted(self@, format@) == Some(r@),
    {
        proof {
            use_type_invariant(self);
        }
        match format_instant(self.nanoseconds, format) {
            Some(text) => text,
            None => String::new(),
        }
    }

    /// Nanoseconds after the Unix epoch.
    pub fn as_nanosecond(&self) -> (r: i128)
        ensures
            r == self@,
    {
        self.nanoseconds
    }
}

impl std::str::FromStr for Timestamp {
    type Err = String;

    fn from_str(s: &str) -> (r: Result<Self, String>)
        ensures
            match r {
                Ok(t) => instant_of(s@) == Result::<i128, Seq<char>>::Ok(t@),
                Err(e) => instant_of(s@) == Result::<i128, Seq<char>>::Err(e@),
            },
    {
        Self::parse(s)
    }
}

} // verus!
