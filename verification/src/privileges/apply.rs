//! Reading credentials, and checking what a plan has made of them.
use vstd::prelude::*;
use vstd::string::*;

use crate::parse::{lines, lines_of, number, parse_hex, parse_u32, split_at_first, split_first, trim_text, trimmed, words, words_of, NumberError};
use crate::privileges::plan::{op_views, CapabilitySets, Credentials, Op, OpView, PrivilegePlan, PrivilegePlanView};
use crate::text::{decimal, hexadecimal, join, join_texts, push_decimal, push_hexadecimal, texts};

verus! {

/// Credential state parsed from `/proc/self/status`.
#[derive(Debug, Clone, Copy, PartialEq, Eq)]
pub struct ProcStatus {
    /// Real, effective, saved and filesystem UIDs.
    pub uids: [u32; 4],
    /// Real, effective, saved and filesystem GIDs.
    pub gids: [u32; 4],
    /// Number of threads.
    pub threads: u32,
    /// `CapInh`.
    pub cap_inheritable: u64,
    /// `CapPrm`.
    pub cap_permitted: u64,
    /// `CapEff`.
    pub cap_effective: u64,
    /// `CapBnd`.
    pub cap_bounding: u64,
    /// `CapAmb`.
    pub cap_ambient: u64,
    /// `NoNewPrivs`.
    pub no_new_privs: bool,
}

/// What a credential state stands for.
#[verifier::ext_equal]
pub struct StatusView {
    /// Real, effective, saved and filesystem UIDs.
    pub uids: Seq<u32>,
    /// Real, effective, saved and filesystem GIDs.
    pub gids: Seq<u32>,
    /// Number of threads.
    pub threads: u32,
    /// `CapInh`.
    pub cap_inheritable: u64,
    /// `CapPrm`.
    pub cap_permitted: u64,
    /// `CapEff`.
    pub cap_effective: u64,
    /// `CapBnd`.
    pub cap_bounding: u64,
    /// `CapAmb`.
    pub cap_ambient: u64,
    /// `NoNewPrivs`.
    pub no_new_privs: bool,
}

impl View for ProcStatus {
    type V = StatusView;

    open spec fn view(&self) -> StatusView {
        StatusView {
            uids: self.uids@,
            gids: self.gids@,
            threads: self.threads,
            cap_inheritable: self.cap_inheritable,
            cap_permitted: self.cap_permitted,
            cap_effective: self.cap_effective,
            cap_bounding: self.cap_bounding,
            cap_ambient: self.cap_ambient,
            no_new_privs: self.no_new_privs,
        }
    }
}

impl StatusView {
    /// The state before anything was read.
    pub open spec fn blank() -> StatusView {
        StatusView {
            uids: seq![0u32, 0, 0, 0],
            gids: seq![0u32, 0, 0, 0],
            threads: 0,
            cap_inheritable: 0,
            cap_permitted: 0,
            cap_effective: 0,
            cap_bounding: 0,
            cap_ambient: 0,
            no_new_privs: false,
        }
    }
}

impl Default for ProcStatus {
    fn default() -> (r: Self)
        ensures
            r@ == StatusView::blank(),
    {
        let r = ProcStatus {
            uids: [0, 0, 0, 0],
            gids: [0, 0, 0, 0],
            threads: 0,
            cap_inheritable: 0,
            cap_permitted: 0,
            cap_effective: 0,
            cap_bounding: 0,
            cap_ambient: 0,
            no_new_privs: false,
        };
        assert(r@ =~= StatusView::blank());
        r
    }
}

/// The fields of a status file that matter.
#[derive(Debug, Clone, Copy, PartialEq, Eq, Structural)]
pub enum StatusField {
    /// `Uid`.
    Uid,
    /// `Gid`.
    Gid,
    /// `Threads`.
    Threads,
    /// `CapInh`.
    CapInh,
    /// `CapPrm`.
    CapPrm,
    /// `CapEff`.
    CapEff,
    /// `CapBnd`.
    CapBnd,
    /// `CapAmb`.
    CapAmb,
    /// `NoNewPrivs`.
    NoNewPrivs,
}

/// The field of that name, if it matters.
pub open spec fn field_of(key: Seq<char>) -> Option<StatusField> {
    if key == "Uid"@ {
        Some(StatusField::Uid)
    } else if key == "Gid"@ {
        Some(StatusField::Gid)
    } else if key == "Threads"@ {
        Some(StatusField::Threads)
    } else if key == "CapInh"@ {
        Some(StatusField::CapInh)
    } else if key == "CapPrm"@ {
        Some(StatusField::CapPrm)
    } else if key == "CapEff"@ {
        Some(StatusField::CapEff)
    } else if key == "CapBnd"@ {
        Some(StatusField::CapBnd)
    } else if key == "CapAmb"@ {
        Some(StatusField::CapAmb)
    } else if key == "NoNewPrivs"@ {
        Some(StatusField::NoNewPrivs)
    } else {
        None
    }
}

fn field_named(key: &str) -> (r: Option<StatusField>)
    ensures
        r == field_of(key@),
{
    if crate::text::same(key, "Uid") {
        Some(StatusField::Uid)
    } else if crate::text::same(key, "Gid") {
        Some(StatusField::Gid)
    } else if crate::text::same(key, "Threads") {
        Some(StatusField::Threads)
    } else if crate::text::same(key, "CapInh") {
        Some(StatusField::CapInh)
    } else if crate::text::same(key, "CapPrm") {
        Some(StatusField::CapPrm)
    } else if crate::text::same(key, "CapEff") {
        Some(StatusField::CapEff)
    } else if crate::text::same(key, "CapBnd") {
        Some(StatusField::CapBnd)
    } else if crate::text::same(key, "CapAmb") {
        Some(StatusField::CapAmb)
    } else if crate::text::same(key, "NoNewPrivs") {
        Some(StatusField::NoNewPrivs)
    } else {
        None
    }
}

impl StatusField {
    /// The bit of the field in the mask of those that were seen.
    pub open spec fn bit(self) -> u16 {
        match self {
            StatusField::Uid => 1,
            StatusField::Gid => 2,
            StatusField::Threads => 4,
            StatusField::CapInh => 8,
            StatusField::CapPrm => 16,
            StatusField::CapEff => 32,
            StatusField::CapBnd => 64,
            StatusField::CapAmb => 128,
            StatusField::NoNewPrivs => 256,
        }
    }

    fn mask(&self) -> (r: u16)
        ensures
            r == self.bit(),
    {
        match self {
            StatusField::Uid => 1,
            StatusField::Gid => 2,
            StatusField::Threads => 4,
            StatusField::CapInh => 8,
            StatusField::CapPrm => 16,
            StatusField::CapEff => 32,
            StatusField::CapBnd => 64,
            StatusField::CapAmb => 128,
            StatusField::NoNewPrivs => 256,
        }
    }
}

/// The IDs that words stand for, or the first that is none.
pub open spec fn ids_of(parts: Seq<Seq<char>>) -> Result<Seq<u32>, NumberError>
    decreases parts.len(),
{
    if parts.len() == 0 {
        Ok(Seq::empty())
    } else {
        match ids_of(parts.drop_last()) {
            Err(e) => Err(e),
            Ok(ids) => match number(parts.last(), 10, u32::MAX as nat) {
                Err(e) => Err(e),
                Ok(id) => Ok(ids.push(id as u32)),
            },
        }
    }
}

/// The four IDs that a field holds.
pub open spec fn four_ids(key: Seq<char>, value: Seq<char>) -> Result<Seq<u32>, Seq<char>> {
    match ids_of(words(value)) {
        Err(e) => Err(key + ": "@ + e.text()),
        Ok(ids) => if ids.len() == 4 {
            Ok(ids)
        } else {
            Err(key + ": expected 4 IDs, found "@ + decimal(ids.len()))
        },
    }
}

fn keyed_error(key: &str, text: &str) -> (r: String)
    ensures
        r@ == key@ + ": "@ + text@,
{
    let mut out = String::new();
    out.append(key);
    out.append(": ");
    out.append(text);
    assert(out@ =~= key@ + ": "@ + text@);
    out
}

fn parse_ids(parts: &Vec<String>) -> (r: Result<Vec<u32>, NumberError>)
    ensures
        match r {
            Ok(ids) => ids_of(texts(parts@)) == Ok::<Seq<u32>, NumberError>(ids@),
            Err(e) => ids_of(texts(parts@)) == Err::<Seq<u32>, NumberError>(e),
        },
{
    let ghost views = texts(parts@);
    let mut ids: Vec<u32> = Vec::new();
    let mut i: usize = 0;
    assert(ids@ =~= Seq::<u32>::empty());
    while i < parts.len()
        invariant
            i <= parts@.len(),
            views == texts(parts@),
            ids_of(views.take(i as int)) == Ok::<Seq<u32>, NumberError>(ids@),
        decreases parts@.len() - i,
    {
        proof {
            assert(views.take(i + 1).drop_last() =~= views.take(i as int));
            assert(views.take(i + 1).last() == parts@[i as int]@);
        }
        match parse_u32(parts[i].as_str()) {
            Ok(id) => {
                ids.push(id);
            },
            Err(e) => {
                proof {
                    lemma_ids_error(views, i + 1);
                }
                return Err(e);
            },
        }
        i += 1;
    }
    assert(views.take(views.len() as int) =~= views);
    Ok(ids)
}

proof fn lemma_ids_error(parts: Seq<Seq<char>>, n: int)
    requires
        0 <= n <= parts.len(),
        ids_of(parts.take(n)) is Err,
    ensures
        ids_of(parts) == ids_of(parts.take(n)),
    decreases parts.len() - n,
{
    if n < parts.len() {
        assert(parts.take(n + 1).drop_last() =~= parts.take(n));
        lemma_ids_error(parts, n + 1);
    } else {
        assert(parts.take(n) =~= parts);
    }
}

fn parse_four_ids(key: &str, value: &str) -> (r: Result<[u32; 4], String>)
    ensures
        match r {
            Ok(ids) => four_ids(key@, value@) == Ok::<Seq<u32>, Seq<char>>(ids@),
            Err(e) => four_ids(key@, value@) == Err::<Seq<u32>, Seq<char>>(e@),
        },
{
    let parts = words_of(value);
    match parse_ids(&parts) {
        Err(e) => Err(keyed_error(key, e.message())),
        Ok(ids) => {
            if ids.len() == 4 {
                let four = [ids[0], ids[1], ids[2], ids[3]];
                assert(four@ =~= ids@);
                Ok(four)
            } else {
                let mut out = String::new();
                out.append(key);
                out.append(": expected 4 IDs, found ");
                push_decimal(&mut out, ids.len() as u64);
                assert(out@ =~= key@ + ": expected 4 IDs, found "@ + decimal(ids@.len()));
                Err(out)
            }
        },
    }
}

/// Reading one field into a status.
pub open spec fn read_field(
    s: StatusView,
    field: StatusField,
    key: Seq<char>,
    value: Seq<char>,
) -> Result<StatusView, Seq<char>> {
    let hex = number(value, 16, u64::MAX as nat);
    match field {
        StatusField::Uid => match four_ids(key, value) {
            Ok(ids) => Ok(StatusView { uids: ids, ..s }),
            Err(e) => Err(e),
        },
        StatusField::Gid => match four_ids(key, value) {
            Ok(ids) => Ok(StatusView { gids: ids, ..s }),
            Err(e) => Err(e),
        },
        StatusField::Threads => match number(value, 10, u32::MAX as nat) {
            Ok(n) => Ok(StatusView { threads: n as u32, ..s }),
            Err(e) => Err(key + ": "@ + e.text()),
        },
        StatusField::NoNewPrivs => Ok(StatusView { no_new_privs: value == "1"@, ..s }),
        _ => match hex {
            Err(e) => Err(key + ": "@ + e.text()),
            Ok(n) => Ok(
                match field {
                    StatusField::CapInh => StatusView { cap_inheritable: n as u64, ..s },
                    StatusField::CapPrm => StatusView { cap_permitted: n as u64, ..s },
                    StatusField::CapEff => StatusView { cap_effective: n as u64, ..s },
                    StatusField::CapBnd => StatusView { cap_bounding: n as u64, ..s },
                    _ => StatusView { cap_ambient: n as u64, ..s },
                },
            ),
        },
    }
}

/// Reading one line: fields that do not matter, and lines without a colon, are
/// passed over.
pub open spec fn read_line(s: (StatusView, u16), line: Seq<char>) -> Result<
    (StatusView, u16),
    Seq<char>,
> {
    match split_first(line, ':') {
        None => Ok(s),
        Some((key, value)) => match field_of(key) {
            None => Ok(s),
            Some(field) => match read_field(s.0, field, key, trimmed(value)) {
                Err(e) => Err(e),
                Ok(t) => Ok((t, s.1 | field.bit())),
            },
        },
    }
}

/// Reading lines, in order; the first that cannot be read decides.
pub open spec fn read_lines(all: Seq<Seq<char>>) -> Result<(StatusView, u16), Seq<char>>
    decreases all.len(),
{
    if all.len() == 0 {
        Ok((StatusView::blank(), 0))
    } else {
        match read_lines(all.drop_last()) {
            Err(e) => Err(e),
            Ok(s) => read_line(s, all.last()),
        }
    }
}

/// The digits of `n` in base two.
pub open spec fn binary(n: nat) -> Seq<char>
    decreases n,
{
    if n < 2 {
        seq![crate::text::digit(n)]
    } else {
        binary(n / 2).push(crate::text::digit(n % 2))
    }
}

fn push_binary(out: &mut String, n: u16)
    ensures
        final(out)@ == old(out)@ + binary(n as nat),
    decreases n,
{
    if n >= 2 {
        push_binary(out, n / 2);
    }
    out.push(
        if n % 2 == 0 {
            '0'
        } else {
            '1'
        },
    );
    assert(out@ =~= old(out)@ + binary(n as nat));
}

/// The mask of a status in which every field was seen.
pub const ALL_FIELDS: u16 = 511;

/// What the text of a status file says, if every field that matters is there.
pub open spec fn status_of(text: Seq<char>) -> Result<StatusView, Seq<char>> {
    match read_lines(lines(text)) {
        Err(e) => Err(e),
        Ok((s, seen)) => if seen == ALL_FIELDS {
            Ok(s)
        } else {
            Err("missing fields in status (seen mask 0b"@ + binary(seen as nat) + ")"@)
        },
    }
}

proof fn lemma_lines_error(all: Seq<Seq<char>>, n: int)
    requires
        0 <= n <= all.len(),
        read_lines(all.take(n)) is Err,
    ensures
        read_lines(all) == read_lines(all.take(n)),
    decreases all.len() - n,
{
    if n < all.len() {
        assert(all.take(n + 1).drop_last() =~= all.take(n));
        lemma_lines_error(all, n + 1);
    } else {
        assert(all.take(n) =~= all);
    }
}

fn hex_field(key: &str, value: &str) -> (r: Result<u64, String>)
    ensures
        match r {
            Ok(n) => number(value@, 16, u64::MAX as nat) == Ok::<nat, NumberError>(n as nat),
            Err(e) => number(value@, 16, u64::MAX as nat) is Err && e@ == key@ + ": "@ + number(
                value@,
                16,
                u64::MAX as nat,
            )->Err_0.text(),
        },
{
    match parse_hex(value) {
        Ok(n) => Ok(n),
        Err(e) => Err(keyed_error(key, e.message())),
    }
}

impl ProcStatus {
    fn set_field(&mut self, field: StatusField, key: &str, value: &str) -> (r: Result<(), String>)
        ensures
            match r {
                Ok(_) => read_field(old(self)@, field, key@, value@) == Ok::<StatusView, Seq<char>>(
                    final(self)@,
                ),
                Err(e) => read_field(old(self)@, field, key@, value@) == Err::<
                    StatusView,
                    Seq<char>,
                >(e@),
            },
    {
        let ghost before = self@;
        match field {
            StatusField::Uid => match parse_four_ids(key, value) {
                Ok(ids) => {
                    self.uids = ids;
                    Ok(())
                },
                Err(e) => Err(e),
            },
            StatusField::Gid => match parse_four_ids(key, value) {
                Ok(ids) => {
                    self.gids = ids;
                    Ok(())
                },
                Err(e) => Err(e),
            },
            StatusField::Threads => match parse_u32(value) {
                Ok(n) => {
                    self.threads = n;
                    Ok(())
                },
                Err(e) => Err(keyed_error(key, e.message())),
            },
            StatusField::NoNewPrivs => {
                self.no_new_privs = crate::text::same(value, "1");
                Ok(())
            },
            _ => {
                let n: u64 = match hex_field(key, value) {
                    Ok(n) => n,
                    Err(e) => {
                        return Err(e);
                    },
                };
                match field {
                    StatusField::CapInh => {
                        self.cap_inheritable = n;
                    },
                    StatusField::CapPrm => {
                        self.cap_permitted = n;
                    },
                    StatusField::CapEff => {
                        self.cap_effective = n;
                    },
                    StatusField::CapBnd => {
                        self.cap_bounding = n;
                    },
                    _ => {
                        self.cap_ambient = n;
                    },
                }
                Ok(())
            },
        }
    }

    /// Parses the relevant fields of `/proc/<pid>/status`.
    pub fn parse(text: &str) -> (r: Result<Self, String>)
        ensures
            match r {
                Ok(s) => status_of(text@) == Ok::<StatusView, Seq<char>>(s@),
                Err(e) => status_of(text@) == Err::<StatusView, Seq<char>>(e@),
            },
    {
        let mut status = ProcStatus::default();
        let mut seen: u16 = 0;
        let all = lines_of(text);
        let ghost views = lines(text@);
        let mut i: usize = 0;
        while i < all.len()
            invariant
                i <= all@.len(),
                views == lines(text@),
                views == texts(all@),
                read_lines(views.take(i as int)) == Ok::<(StatusView, u16), Seq<char>>(
                    (status@, seen),
                ),
            decreases all@.len() - i,
        {
            proof {
                assert(views.take(i + 1).drop_last() =~= views.take(i as int));
                assert(views.take(i + 1).last() == all@[i as int]@);
            }
            if let Some((key, value)) = split_at_first(all[i].as_str(), ':') {
                if let Some(field) = field_named(key.as_str()) {
                    let value = trim_text(value.as_str());
                    match status.set_field(field, key.as_str(), value.as_str()) {
                        Ok(_) => {},
                        Err(e) => {
                            proof {
                                lemma_lines_error(views, i + 1);
                            }
                            return Err(e);
                        },
                    }
                    seen = seen | field.mask();
                }
            }
            i += 1;
        }
        assert(views.take(views.len() as int) =~= views);
        if seen == ALL_FIELDS {
            Ok(status)
        } else {
            let mut out = String::new();
            out.append("missing fields in status (seen mask 0b");
            push_binary(&mut out, seen);
            out.append(")");
            assert(out@ =~= "missing fields in status (seen mask 0b"@ + binary(seen as nat) + ")"@);
            Err(out)
        }
    }

    /// Current credentials in the form the planner uses.
    pub fn credentials(&self) -> (r: Credentials)
        ensures
            r.uids@ == self@.uids.take(3),
            r.caps == (CapabilitySets {
                effective: self@.cap_effective,
                permitted: self@.cap_permitted,
                inheritable: self@.cap_inheritable,
            }),
    {
        let uids = [self.uids[0], self.uids[1], self.uids[2]];
        assert(uids@ =~= self.uids@.take(3));
        Credentials {
            uids,
            caps: CapabilitySets {
                effective: self.cap_effective,
                permitted: self.cap_permitted,
                inheritable: self.cap_inheritable,
            },
        }
    }
}

// Verification.

/// A number in base sixteen with its prefix.
pub open spec fn hex_text(n: u64) -> Seq<char> {
    "0x"@ + hexadecimal(n as nat)
}

/// What is wrong with a set of capabilities that should be `expected`.
pub open spec fn caps_problem(label: Seq<char>, actual: u64, expected: u64) -> Seq<Seq<char>> {
    if actual != expected {
        seq![label + " capabilities "@ + hex_text(actual) + ", expected "@ + hex_text(expected)]
    } else {
        Seq::empty()
    }
}

/// What is wrong with the user IDs.
pub open spec fn uid_problem(s: StatusView, expected: u32) -> Seq<Seq<char>> {
    if s.uids[0] != expected || s.uids[1] != expected || s.uids[2] != expected {
        seq![
            "UIDs ["@ + decimal(s.uids[0] as nat) + ", "@ + decimal(s.uids[1] as nat) + ", "@
                + decimal(s.uids[2] as nat) + "], expected all "@ + decimal(expected as nat),
        ]
    } else {
        Seq::empty()
    }
}

/// What is wrong with the group IDs, if the plan changes them.
pub open spec fn gid_problem(p: PrivilegePlanView, s: StatusView) -> Seq<Seq<char>> {
    match p.final_groups {
        Some((gid, _)) => if s.gids[0] != gid || s.gids[1] != gid || s.gids[2] != gid {
            seq![
                "GIDs ["@ + decimal(s.gids[0] as nat) + ", "@ + decimal(s.gids[1] as nat) + ", "@
                    + decimal(s.gids[2] as nat) + "], expected all "@ + decimal(gid as nat),
            ]
        } else {
            Seq::empty()
        },
        None => Seq::empty(),
    }
}

/// What is wrong with a set of capabilities that should be empty.
pub open spec fn extra_problem(label: Seq<char>, actual: u64) -> Seq<Seq<char>> {
    if actual != 0 {
        seq![label + " capabilities "@ + hex_text(actual)]
    } else {
        Seq::empty()
    }
}

/// Whether the plan changes the bounding set.
pub open spec fn drops_bounding(ops: Seq<OpView>) -> bool {
    exists|i: int| 0 <= i < ops.len() && (#[trigger] ops[i]) is DropBoundingExcept
}

/// What is wrong with the bounding set, if the plan changes it.
pub open spec fn bounding_problem(p: PrivilegePlanView, s: StatusView) -> Seq<Seq<char>> {
    if drops_bounding(p.ops) && s.cap_bounding & !p.final_caps != 0 {
        seq!["bounding set "@ + hex_text(s.cap_bounding) + " exceeds "@ + hex_text(p.final_caps)]
    } else {
        Seq::empty()
    }
}

/// What is wrong if privileges can still be gained.
pub open spec fn gain_problem(s: StatusView) -> Seq<Seq<char>> {
    if !s.no_new_privs {
        seq!["no_new_privs is not set"@]
    } else {
        Seq::empty()
    }
}

/// Everything in which a status differs from what a plan promised.
pub open spec fn problems(p: PrivilegePlanView, s: StatusView) -> Seq<Seq<char>> {
    uid_problem(s, p.final_uid) + gid_problem(p, s) + caps_problem("effective"@, s.cap_effective, p.final_caps)
        + caps_problem("permitted"@, s.cap_permitted, p.final_caps) + extra_problem(
        "inheritable"@,
        s.cap_inheritable,
    ) + extra_problem("ambient"@, s.cap_ambient) + gain_problem(s) + bounding_problem(p, s)
}

fn push_hex(out: &mut String, n: u64)
    ensures
        final(out)@ == old(out)@ + hex_text(n),
{
    out.append("0x");
    push_hexadecimal(out, n);
    assert(out@ =~= old(out)@ + hex_text(n));
}

fn push_text(out: &mut Vec<String>, text: String)
    ensures
        texts(final(out)@) == texts(old(out)@).push(text@),
{
    let ghost before = texts(out@);
    let ghost added = text@;
    out.push(text);
    assert(texts(out@) =~= before.push(added));
}

fn check_caps(out: &mut Vec<String>, label: &str, actual: u64, expected: u64)
    ensures
        texts(final(out)@) == texts(old(out)@) + caps_problem(label@, actual, expected),
{
    let ghost before = texts(out@);
    if actual != expected {
        let mut text = String::new();
        text.append(label);
        text.append(" capabilities ");
        push_hex(&mut text, actual);
        text.append(", expected ");
        push_hex(&mut text, expected);
        assert(text@ =~= label@ + " capabilities "@ + hex_text(actual) + ", expected "@ + hex_text(
            expected,
        ));
        push_text(out, text);
    }
    assert(texts(out@) =~= before + caps_problem(label@, actual, expected));
}

fn check_extra(out: &mut Vec<String>, label: &str, actual: u64)
    ensures
        texts(final(out)@) == texts(old(out)@) + extra_problem(label@, actual),
{
    let ghost before = texts(out@);
    if actual != 0 {
        let mut text = String::new();
        text.append(label);
        text.append(" capabilities ");
        push_hex(&mut text, actual);
        assert(text@ =~= label@ + " capabilities "@ + hex_text(actual));
        push_text(out, text);
    }
    assert(texts(out@) =~= before + extra_problem(label@, actual));
}

fn check_uids(out: &mut Vec<String>, s: &ProcStatus, expected: u32)
    ensures
        texts(final(out)@) == texts(old(out)@) + uid_problem(s@, expected),
{
    let ghost before = texts(out@);
    if s.uids[0] != expected || s.uids[1] != expected || s.uids[2] != expected {
        let mut text = String::new();
        text.append("UIDs [");
        push_decimal(&mut text, s.uids[0] as u64);
        text.append(", ");
        push_decimal(&mut text, s.uids[1] as u64);
        text.append(", ");
        push_decimal(&mut text, s.uids[2] as u64);
        text.append("], expected all ");
        push_decimal(&mut text, expected as u64);
        assert(text@ =~= uid_problem(s@, expected)[0]);
        push_text(out, text);
    }
    assert(texts(out@) =~= before + uid_problem(s@, expected));
}

fn check_gids(out: &mut Vec<String>, plan: &PrivilegePlan, s: &ProcStatus)
    ensures
        texts(final(out)@) == texts(old(out)@) + gid_problem(plan@, s@),
{
    let ghost before = texts(out@);
    if let Some(groups) = &plan.final_groups {
        let gid = groups.gid;
        if s.gids[0] != gid || s.gids[1] != gid || s.gids[2] != gid {
            let mut text = String::new();
            text.append("GIDs [");
            push_decimal(&mut text, s.gids[0] as u64);
            text.append(", ");
            push_decimal(&mut text, s.gids[1] as u64);
            text.append(", ");
            push_decimal(&mut text, s.gids[2] as u64);
            text.append("], expected all ");
            push_decimal(&mut text, gid as u64);
            assert(text@ =~= gid_problem(plan@, s@)[0]);
            push_text(out, text);
        }
    }
    assert(texts(out@) =~= before + gid_problem(plan@, s@));
}

fn check_bounding(out: &mut Vec<String>, plan: &PrivilegePlan, s: &ProcStatus)
    ensures
        texts(final(out)@) == texts(old(out)@) + bounding_problem(plan@, s@),
{
    let ghost before = texts(out@);
    let ghost ops = op_views(plan.ops@);
    let mut drops: bool = false;
    let mut i: usize = 0;
    while i < plan.ops.len()
        invariant
            i <= plan.ops@.len(),
            ops == op_views(plan.ops@),
            drops == exists|j: int| 0 <= j < i && (#[trigger] ops[j]) is DropBoundingExcept,
        decreases plan.ops@.len() - i,
    {
        assert(ops[i as int] == plan.ops@[i as int]@);
        if let Op::DropBoundingExcept(_) = &plan.ops[i] {
            drops = true;
        }
        i += 1;
    }
    if drops && s.cap_bounding & !plan.final_caps != 0 {
        let mut text = String::new();
        text.append("bounding set ");
        push_hex(&mut text, s.cap_bounding);
        text.append(" exceeds ");
        push_hex(&mut text, plan.final_caps);
        assert(text@ =~= "bounding set "@ + hex_text(s.cap_bounding) + " exceeds "@ + hex_text(
            plan.final_caps,
        ));
        push_text(out, text);
    }
    assert(texts(out@) =~= before + bounding_problem(plan@, s@));
}

fn find_problems(plan: &PrivilegePlan, status: &ProcStatus) -> (r: Vec<String>)
    ensures
        texts(r@) == problems(plan@, status@),
{
    let mut found: Vec<String> = Vec::new();
    assert(texts(found@) =~= Seq::<Seq<char>>::empty());
    check_uids(&mut found, status, plan.final_uid);
    assert(texts(found@) =~= uid_problem(status@, plan@.final_uid));
    check_gids(&mut found, plan, status);
    check_caps(&mut found, "effective", status.cap_effective, plan.final_caps);
    check_caps(&mut found, "permitted", status.cap_permitted, plan.final_caps);
    check_extra(&mut found, "inheritable", status.cap_inheritable);
    check_extra(&mut found, "ambient", status.cap_ambient);
    let ghost before = texts(found@);
    if !status.no_new_privs {
        push_text(&mut found, "no_new_privs is not set".to_owned());
    }
    assert(texts(found@) =~= before + gain_problem(status@));
    check_bounding(&mut found, plan, status);
    found
}

/// Checks that `status` matches what `plan` promised.
pub fn verify(plan: &PrivilegePlan, status: &ProcStatus) -> (r: Result<(), String>)
    ensures
        match r {
            Ok(_) => problems(plan@, status@).len() == 0,
            Err(e) => problems(plan@, status@).len() > 0 && e@ == join(
                problems(plan@, status@),
                "; "@,
            ),
        },
{
    let found = find_problems(plan, status);
    assert(texts(found@).len() == found@.len());
    if found.len() == 0 {
        Ok(())
    } else {
        Err(join_texts(&found, "; "))
    }
}

/// A status passes exactly if it is what the plan promised: the real, effective
/// and saved user IDs, the same group IDs where the plan changes them, all
/// capability sets, and the bounding set where the plan changes it.
pub proof fn law_verified_is_as_planned(p: PrivilegePlanView, s: StatusView)
    ensures
        problems(p, s).len() == 0 <==> {
            &&& s.uids[0] == p.final_uid && s.uids[1] == p.final_uid && s.uids[2] == p.final_uid
            &&& p.final_groups matches Some((gid, _)) ==> s.gids[0] == gid && s.gids[1] == gid
                && s.gids[2] == gid
            &&& s.cap_effective == p.final_caps && s.cap_permitted == p.final_caps
            &&& s.cap_inheritable == 0 && s.cap_ambient == 0
            &&& s.no_new_privs
            &&& drops_bounding(p.ops) ==> s.cap_bounding & !p.final_caps == 0
        },
{
}

// Capability names.

/// The name of a capability, without its prefix, if it has one.
pub open spec fn known_name(n: u32) -> Option<Seq<char>> {
    match n {
        0 => Some("chown"@),
        1 => Some("dac_override"@),
        2 => Some("dac_read_search"@),
        3 => Some("fowner"@),
        4 => Some("fsetid"@),
        5 => Some("kill"@),
        6 => Some("setgid"@),
        7 => Some("setuid"@),
        8 => Some("setpcap"@),
        9 => Some("linux_immutable"@),
        10 => Some("net_bind_service"@),
        11 => Some("net_broadcast"@),
        12 => Some("net_admin"@),
        13 => Some("net_raw"@),
        14 => Some("ipc_lock"@),
        15 => Some("ipc_owner"@),
        16 => Some("sys_module"@),
        17 => Some("sys_rawio"@),
        18 => Some("sys_chroot"@),
        19 => Some("sys_ptrace"@),
        20 => Some("sys_pacct"@),
        21 => Some("sys_admin"@),
        22 => Some("sys_boot"@),
        23 => Some("sys_nice"@),
        24 => Some("sys_resource"@),
        25 => Some("sys_time"@),
        26 => Some("sys_tty_config"@),
        27 => Some("mknod"@),
        28 => Some("lease"@),
        29 => Some("audit_write"@),
        30 => Some("audit_control"@),
        31 => Some("setfcap"@),
        32 => Some("mac_override"@),
        33 => Some("mac_admin"@),
        34 => Some("syslog"@),
        35 => Some("wake_alarm"@),
        36 => Some("block_suspend"@),
        37 => Some("audit_read"@),
        38 => Some("perfmon"@),
        39 => Some("bpf"@),
        40 => Some("checkpoint_restore"@),
        _ => None,
    }
}

fn capability_name(n: u32) -> (r: Option<&'static str>)
    ensures
        match r {
            Some(name) => known_name(n) == Some(name@),
            None => known_name(n) is None,
        },
{
    match n {
        0 => Some("chown"),
        1 => Some("dac_override"),
        2 => Some("dac_read_search"),
        3 => Some("fowner"),
        4 => Some("fsetid"),
        5 => Some("kill"),
        6 => Some("setgid"),
        7 => Some("setuid"),
        8 => Some("setpcap"),
        9 => Some("linux_immutable"),
        10 => Some("net_bind_service"),
        11 => Some("net_broadcast"),
        12 => Some("net_admin"),
        13 => Some("net_raw"),
        14 => Some("ipc_lock"),
        15 => Some("ipc_owner"),
        16 => Some("sys_module"),
        17 => Some("sys_rawio"),
        18 => Some("sys_chroot"),
        19 => Some("sys_ptrace"),
        20 => Some("sys_pacct"),
        21 => Some("sys_admin"),
        22 => Some("sys_boot"),
        23 => Some("sys_nice"),
        24 => Some("sys_resource"),
        25 => Some("sys_time"),
        26 => Some("sys_tty_config"),
        27 => Some("mknod"),
        28 => Some("lease"),
        29 => Some("audit_write"),
        30 => Some("audit_control"),
        31 => Some("setfcap"),
        32 => Some("mac_override"),
        33 => Some("mac_admin"),
        34 => Some("syslog"),
        35 => Some("wake_alarm"),
        36 => Some("block_suspend"),
        37 => Some("audit_read"),
        38 => Some("perfmon"),
        39 => Some("bpf"),
        40 => Some("checkpoint_restore"),
        _ => None,
    }
}

/// How a capability is written: by its name, else by its number.
pub open spec fn cap_text(n: u32) -> Seq<char> {
    match known_name(n) {
        Some(name) => "cap_"@ + name,
        None => "cap_"@ + decimal(n as nat),
    }
}

/// Whether bit `n` is set.
pub open spec fn has_bit(set: u64, n: u32) -> bool {
    set & (1u64 << n) != 0
}

/// The capabilities of a set below number `n`, in order.
pub open spec fn caps_below(set: u64, n: nat) -> Seq<Seq<char>>
    decreases n,
{
    if n == 0 {
        Seq::empty()
    } else {
        let front = caps_below(set, (n - 1) as nat);
        if has_bit(set, (n - 1) as u32) {
            front.push(cap_text((n - 1) as u32))
        } else {
            front
        }
    }
}

/// A capability set in words.
pub open spec fn caps_text(set: u64) -> Seq<char> {
    if set == 0 {
        "none"@
    } else {
        join(caps_below(set, 64), ","@)
    }
}

/// Renders a capability set as names, e.g. `cap_sys_admin`.
pub fn describe_caps(set: u64) -> (r: String)
    ensures
        r@ == caps_text(set),
{
    if set == 0 {
        return "none".to_owned();
    }
    let mut out: Vec<String> = Vec::new();
    let mut n: u32 = 0;
    assert(texts(out@) =~= caps_below(set, 0));
    while n < 64
        invariant
            n <= 64,
            texts(out@) == caps_below(set, n as nat),
        decreases 64 - n,
    {
        if set & (1u64 << n) != 0 {
            let mut text = String::new();
            text.append("cap_");
            match capability_name(n) {
                Some(name) => {
                    text.append(name);
                },
                None => {
                    push_decimal(&mut text, n as u64);
                },
            }
            assert(text@ =~= cap_text(n));
            push_text(&mut out, text);
        }
        n += 1;
    }
    join_texts(&out, ",")
}

// Applying.

/// The last capability that the kernel knows, from the text of
/// `cap_last_cap`.
pub open spec fn last_of(text: Seq<char>) -> Result<u32, Seq<char>> {
    match number(trimmed(text), 10, u32::MAX as nat) {
        Err(e) => Err("cap_last_cap"@ + ": "@ + e.text()),
        Ok(n) => if n >= 64 {
            Err("cap_last_cap "@ + decimal(n) + " out of range"@)
        } else {
            Ok(n as u32)
        },
    }
}

/// Reads the number of the last capability that the kernel knows.
pub fn last_capability(text: &str) -> (r: Result<u32, String>)
    ensures
        match r {
            Ok(n) => last_of(text@) == Ok::<u32, Seq<char>>(n) && n < 64,
            Err(e) => last_of(text@) == Err::<u32, Seq<char>>(e@),
        },
{
    match parse_u32(trim_text(text).as_str()) {
        Err(e) => Err(keyed_error("cap_last_cap", e.message())),
        Ok(n) => {
            if n >= 64 {
                let mut out = String::new();
                out.append("cap_last_cap ");
                push_decimal(&mut out, n as u64);
                out.append(" out of range");
                assert(out@ =~= "cap_last_cap "@ + decimal(n as nat) + " out of range"@);
                Err(out)
            } else {
                Ok(n)
            }
        },
    }
}

/// The capabilities below number `n` that are not kept, each as a set of one.
pub open spec fn dropped_below(keep: u64, n: nat) -> Seq<u64>
    decreases n,
{
    if n == 0 {
        Seq::empty()
    } else {
        let front = dropped_below(keep, (n - 1) as nat);
        if has_bit(keep, (n - 1) as u32) {
            front
        } else {
            front.push(1u64 << ((n - 1) as u32))
        }
    }
}

/// The capabilities to drop from the bounding set, each as a set of one, where
/// `last` is the last capability that the kernel knows.
pub fn bounding_drops(keep: u64, last: u32) -> (r: Vec<u64>)
    requires
        last < 64,
    ensures
        r@ == dropped_below(keep, (last + 1) as nat),
{
    let mut out: Vec<u64> = Vec::new();
    let mut n: u32 = 0;
    assert(out@ =~= dropped_below(keep, 0));
    while n <= last
        invariant
            n <= last + 1,
            last < 64,
            out@ == dropped_below(keep, n as nat),
        decreases last + 1 - n,
    {
        if keep & (1u64 << n) == 0 {
            out.push(1u64 << n);
        }
        n += 1;
    }
    out
}

/// Applying the plan failed.
#[derive(Debug, PartialEq, Eq)]
pub enum ApplyError {
    /// The process has more than one thread; per-thread credential syscalls
    /// would leave other threads privileged.
    MultiThreaded(u32),
    /// An operation failed.
    Op {
        /// Description of the operation.
        op: String,
        /// Underlying error.
        source: String,
    },
    /// The resulting credentials differ from the plan.
    Verification(String),
}

/// The text of a failure to apply a plan.
pub open spec fn apply_error_text(e: ApplyError) -> Seq<char> {
    match e {
        ApplyError::MultiThreaded(n) => "cannot normalize privileges: process has "@ + decimal(
            n as nat,
        ) + " threads, expected 1"@,
        ApplyError::Op { op, source } => "privilege operation "@ + op@ + " failed: "@ + source@,
        ApplyError::Verification(what) => "privileges not as expected after normalization: "@
            + what@,
    }
}

impl ApplyError {
    /// Describes the failure.
    pub fn message(&self) -> (r: String)
        ensures
            r@ == apply_error_text(*self),
    {
        let mut out = String::new();
        match self {
            ApplyError::MultiThreaded(n) => {
                out.append("cannot normalize privileges: process has ");
                push_decimal(&mut out, *n as u64);
                out.append(" threads, expected 1");
            },
            ApplyError::Op { op, source } => {
                out.append("privilege operation ");
                out.append(op.as_str());
                out.append(" failed: ");
                out.append(source.as_str());
            },
            ApplyError::Verification(what) => {
                out.append("privileges not as expected after normalization: ");
                out.append(what.as_str());
            },
        }
        assert(out@ =~= apply_error_text(*self));
        out
    }
}

/// Credentials are changed thread by thread: a process with more than one is
/// refused.
pub fn check_threads(before: &ProcStatus) -> (r: Result<(), ApplyError>)
    ensures
        match r {
            Ok(_) => before@.threads == 1,
            Err(e) => before@.threads != 1 && e == ApplyError::MultiThreaded(before@.threads),
        },
{
    if before.threads != 1 {
        Err(ApplyError::MultiThreaded(before.threads))
    } else {
        Ok(())
    }
}

/// Group IDs as text.
pub open spec fn group_texts(groups: Seq<u32>) -> Seq<Seq<char>> {
    groups.map_values(|g: u32| decimal(g as nat))
}

/// Whether two lists hold the same groups.
pub open spec fn same_groups(a: Seq<u32>, b: Seq<u32>) -> bool {
    forall|g: u32| #[trigger] a.contains(g) <==> b.contains(g)
}

/// What is wrong with the supplementary groups, if the plan changes them. They
/// are not part of a status.
pub open spec fn groups_problem(p: PrivilegePlanView, groups: Seq<u32>) -> Seq<Seq<char>> {
    match p.final_groups {
        Some((_, expected)) => if same_groups(groups, expected) {
            Seq::empty()
        } else {
            seq![
                "supplementary groups ["@ + join(group_texts(groups), ", "@) + "], expected ["@
                    + join(group_texts(expected), ", "@) + "]"@,
            ]
        },
        None => Seq::empty(),
    }
}

/// Everything in which the credentials of a process differ from what a plan
/// promised: its status, and its supplementary groups.
pub open spec fn all_problems(p: PrivilegePlanView, s: StatusView, groups: Seq<u32>) -> Seq<
    Seq<char>,
> {
    problems(p, s) + groups_problem(p, groups)
}

fn has_group(groups: &[u32], group: u32) -> (r: bool)
    ensures
        r == groups@.contains(group),
{
    let mut i: usize = 0;
    while i < groups.len()
        invariant
            i <= groups@.len(),
            forall|j: int| 0 <= j < i ==> groups@[j] != group,
        decreases groups@.len() - i,
    {
        if groups[i] == group {
            assert(groups@[i as int] == group);
            return true;
        }
        i += 1;
    }
    false
}

/// Whether every group of the first list is in the second.
fn are_among(a: &[u32], b: &[u32]) -> (r: bool)
    ensures
        r == forall|g: u32| #[trigger] a@.contains(g) ==> b@.contains(g),
{
    let mut i: usize = 0;
    while i < a.len()
        invariant
            i <= a@.len(),
            forall|j: int| 0 <= j < i ==> b@.contains(#[trigger] a@[j]),
        decreases a@.len() - i,
    {
        if !has_group(b, a[i]) {
            assert(a@.contains(a@[i as int]));
            return false;
        }
        i += 1;
    }
    assert forall|g: u32| #[trigger] a@.contains(g) implies b@.contains(g) by {
        let j = choose|j: int| 0 <= j < a@.len() && a@[j] == g;
        assert(b@.contains(a@[j]));
    }
    true
}

fn group_list(groups: &[u32]) -> (r: String)
    ensures
        r@ == join(group_texts(groups@), ", "@),
{
    let ghost all = group_texts(groups@);
    let mut out: Vec<String> = Vec::new();
    let mut i: usize = 0;
    assert(texts(out@) =~= all.take(0));
    while i < groups.len()
        invariant
            i <= groups@.len(),
            all == group_texts(groups@),
            texts(out@) == all.take(i as int),
        decreases groups@.len() - i,
    {
        push_text(&mut out, crate::text::decimal_text(groups[i] as u64));
        i += 1;
        assert(texts(out@) =~= all.take(i as int));
    }
    assert(all.take(all.len() as int) =~= all);
    join_texts(&out, ", ")
}

fn check_groups(out: &mut Vec<String>, plan: &PrivilegePlan, groups: &[u32])
    ensures
        texts(final(out)@) == texts(old(out)@) + groups_problem(plan@, groups@),
{
    let ghost before = texts(out@);
    if let Some(expected) = &plan.final_groups {
        let planned = expected.groups.as_slice();
        let same = are_among(groups, planned) && are_among(planned, groups);
        assert(same == same_groups(groups@, planned@));
        if !same {
            let mut text = String::new();
            text.append("supplementary groups [");
            text.append(group_list(groups).as_str());
            text.append("], expected [");
            text.append(group_list(planned).as_str());
            text.append("]");
            assert(text@ =~= groups_problem(plan@, groups@)[0]);
            push_text(out, text);
        }
    }
    assert(texts(out@) =~= before + groups_problem(plan@, groups@));
}

/// After the operations, the credentials must be what the plan promised: the
/// status of the process, and its supplementary groups.
pub fn check_applied(plan: &PrivilegePlan, after: &ProcStatus, groups: &[u32]) -> (r: Result<
    (),
    ApplyError,
>)
    ensures
        match r {
            Ok(_) => all_problems(plan@, after@, groups@).len() == 0,
            Err(e) => all_problems(plan@, after@, groups@).len() > 0 && (
            e matches ApplyError::Verification(what) && what@ == join(
                all_problems(plan@, after@, groups@),
                "; "@,
            )),
        },
{
    let mut found = find_problems(plan, after);
    check_groups(&mut found, plan, groups);
    assert(texts(found@).len() == found@.len());
    if found.len() == 0 {
        Ok(())
    } else {
        Err(ApplyError::Verification(join_texts(&found, "; ")))
    }
}

/// Applied credentials pass exactly if they are what the plan promised, the
/// supplementary groups included where the plan changes them.
pub proof fn law_applied_is_as_planned(p: PrivilegePlanView, s: StatusView, groups: Seq<u32>)
    ensures
        all_problems(p, s, groups).len() == 0 <==> {
            &&& problems(p, s).len() == 0
            &&& p.final_groups matches Some((_, expected)) ==> same_groups(groups, expected)
        },
{
}

// Laws on what is read.

/// Whether a status says under a key what stands there.
pub open spec fn is_status_field(key: Seq<char>, value: Seq<char>, s: StatusView) -> bool {
    let hex = number(trimmed(value), 16, u64::MAX as nat);
    &&& key == "CapInh"@ ==> hex == Ok::<nat, NumberError>(s.cap_inheritable as nat)
    &&& key == "CapPrm"@ ==> hex == Ok::<nat, NumberError>(s.cap_permitted as nat)
    &&& key == "CapEff"@ ==> hex == Ok::<nat, NumberError>(s.cap_effective as nat)
    &&& key == "CapBnd"@ ==> hex == Ok::<nat, NumberError>(s.cap_bounding as nat)
    &&& key == "CapAmb"@ ==> hex == Ok::<nat, NumberError>(s.cap_ambient as nat)
    &&& key == "NoNewPrivs"@ ==> (s.no_new_privs <==> trimmed(value) == "1"@)
    &&& key == "Threads"@ ==> number(trimmed(value), 10, u32::MAX as nat) == Ok::<
        nat,
        NumberError,
    >(s.threads as nat)
    &&& key == "Uid"@ ==> ids_of(words(trimmed(value))) == Ok::<Seq<u32>, NumberError>(s.uids)
        && s.uids.len() == 4
    &&& key == "Gid"@ ==> ids_of(words(trimmed(value))) == Ok::<Seq<u32>, NumberError>(s.gids)
        && s.gids.len() == 4
}

proof fn lemma_number_fits(s: Seq<char>, radix: nat, max: nat)
    ensures
        number(s, radix, max) matches Ok(n) ==> n <= max,
{
    if s.len() > 0 {
        let digits = if s[0] == '+' && s.len() > 1 {
            s.skip(1)
        } else {
            s
        };
        assert(crate::parse::digits_value(digits, radix, max) == number(s, radix, max));
    }
}

proof fn lemma_field_names()
    ensures
        field_of("Uid"@) == Some(StatusField::Uid),
        field_of("Gid"@) == Some(StatusField::Gid),
        field_of("Threads"@) == Some(StatusField::Threads),
        field_of("CapInh"@) == Some(StatusField::CapInh),
        field_of("CapPrm"@) == Some(StatusField::CapPrm),
        field_of("CapEff"@) == Some(StatusField::CapEff),
        field_of("CapBnd"@) == Some(StatusField::CapBnd),
        field_of("CapAmb"@) == Some(StatusField::CapAmb),
        field_of("NoNewPrivs"@) == Some(StatusField::NoNewPrivs),
{
    reveal_strlit("Uid");
    reveal_strlit("Gid");
    reveal_strlit("Threads");
    reveal_strlit("CapInh");
    reveal_strlit("CapPrm");
    reveal_strlit("CapEff");
    reveal_strlit("CapBnd");
    reveal_strlit("CapAmb");
    reveal_strlit("NoNewPrivs");
    assert("Uid"@[0] == 'U' && "Gid"@[0] == 'G');
    assert("Uid"@.len() == 3 && "Gid"@.len() == 3 && "Threads"@.len() == 7 && "NoNewPrivs"@.len()
        == 10);
    assert("CapInh"@.len() == 6 && "CapPrm"@.len() == 6 && "CapEff"@.len() == 6 && "CapBnd"@.len()
        == 6 && "CapAmb"@.len() == 6);
    assert("CapInh"@[3] == 'I' && "CapPrm"@[3] == 'P' && "CapEff"@[3] == 'E' && "CapBnd"@[3] == 'B'
        && "CapAmb"@[3] == 'A');
}

proof fn lemma_line_read(s: (StatusView, u16), line: Seq<char>, key: Seq<char>, value: Seq<char>)
    requires
        split_first(line, ':') == Some((key, value)),
    ensures
        read_line(s, line) matches Ok((t, seen)) ==> is_status_field(key, value, t),
{
    lemma_field_names();
    lemma_number_fits(trimmed(value), 16, u64::MAX as nat);
    lemma_number_fits(trimmed(value), 10, u32::MAX as nat);
}

proof fn lemma_line_kept(
    s: (StatusView, u16),
    line: Seq<char>,
    key: Seq<char>,
    value: Seq<char>,
)
    requires
        is_status_field(key, value, s.0),
        split_first(line, ':') matches Some((k, v)) ==> k != key,
    ensures
        read_line(s, line) matches Ok((t, seen)) ==> is_status_field(key, value, t),
{
    lemma_field_names();
}

/// Every field of a process status is read from the line of its own name, the
/// last one if there are several; other lines do not matter.
pub proof fn law_status_fields_are_read_by_name(
    text: Seq<char>,
    i: int,
    key: Seq<char>,
    value: Seq<char>,
)
    requires
        0 <= i < lines(text).len(),
        split_first(lines(text)[i], ':') == Some((key, value)),
        forall|j: int|
            i < j < lines(text).len() ==> (split_first(
                #[trigger] lines(text)[j],
                ':',
            ) matches Some((k, v)) ==> k != key),
    ensures
        status_of(text) matches Ok(s) ==> is_status_field(key, value, s),
{
    lemma_fields_read(lines(text), i, key, value);
}

proof fn lemma_fields_read(all: Seq<Seq<char>>, i: int, key: Seq<char>, value: Seq<char>)
    requires
        0 <= i < all.len(),
        split_first(all[i], ':') == Some((key, value)),
        forall|j: int|
            i < j < all.len() ==> (split_first(#[trigger] all[j], ':') matches Some((k, v)) ==> k
                != key),
    ensures
        read_lines(all) matches Ok((s, seen)) ==> is_status_field(key, value, s),
    decreases all.len(),
{
    let front = all.drop_last();
    if read_lines(all) is Ok {
        let before = read_lines(front)->Ok_0;
        if i < front.len() {
            assert(front[i] == all[i]);
            assert forall|j: int| i < j < front.len() implies (split_first(
                #[trigger] front[j],
                ':',
            ) matches Some((k, v)) ==> k != key) by {
                assert(front[j] == all[j]);
            }
            lemma_fields_read(front, i, key, value);
            assert(all[all.len() - 1] == all.last());
            lemma_line_kept(before, all.last(), key, value);
        } else {
            lemma_line_read(before, all.last(), key, value);
        }
    }
}

/// Every capability that the kernel knows and that is not kept is dropped from
/// the bounding set, and none that is kept.
pub proof fn law_bounding_drops_what_is_not_kept(keep: u64, last: u32, n: u32, i: int)
    requires
        last < 64,
        n <= last,
    ensures
        keep & (1u64 << n) == 0 ==> dropped_below(keep, (last + 1) as nat).contains(1u64 << n),
        0 <= i < dropped_below(keep, (last + 1) as nat).len() ==> keep & dropped_below(
            keep,
            (last + 1) as nat,
        )[i] == 0,
{
    lemma_dropped(keep, (last + 1) as nat, n, i);
}

proof fn lemma_dropped(keep: u64, below: nat, n: u32, i: int)
    requires
        below <= 64,
    ensures
        n < below && keep & (1u64 << n) == 0 ==> dropped_below(keep, below).contains(1u64 << n),
        0 <= i < dropped_below(keep, below).len() ==> keep & dropped_below(keep, below)[i] == 0,
    decreases below,
{
    if below > 0 {
        let front = dropped_below(keep, (below - 1) as nat);
        let all = dropped_below(keep, below);
        lemma_dropped(keep, (below - 1) as nat, n, i);
        if front.contains(1u64 << n) {
            let k = choose|k: int| 0 <= k < front.len() && front[k] == 1u64 << n;
            assert(all[k] == 1u64 << n);
        }
        if all.len() > front.len() {
            assert(all[front.len() as int] == 1u64 << ((below - 1) as u32));
        }
    }
}

/// Whether a set holds a capability that is written so.
pub open spec fn is_held(set: u64, text: Seq<char>) -> bool {
    exists|n: u32| n < 64 && set & (1u64 << n) != 0 && #[trigger] cap_text(n) == text
}

/// A capability set is described by the names of its members: each capability
/// that it holds is told, and no other.
pub proof fn law_capabilities_are_told(set: u64, n: u32)
    requires
        n < 64,
    ensures
        set & (1u64 << n) != 0 ==> caps_below(set, 64).contains(cap_text(n)),
        forall|i: int|
            0 <= i < caps_below(set, 64).len() ==> is_held(set, #[trigger] caps_below(set, 64)[i]),
{
    lemma_caps(set, 64, n);
}

proof fn lemma_caps(set: u64, below: nat, n: u32)
    requires
        below <= 64,
    ensures
        n < below && set & (1u64 << n) != 0 ==> caps_below(set, below).contains(cap_text(n)),
        forall|i: int|
            0 <= i < caps_below(set, below).len() ==> is_held(
                set,
                #[trigger] caps_below(set, below)[i],
            ),
    decreases below,
{
    if below > 0 {
        let front = caps_below(set, (below - 1) as nat);
        let all = caps_below(set, below);
        let last = (below - 1) as u32;
        lemma_caps(set, (below - 1) as nat, n);
        if front.contains(cap_text(n)) {
            let k = choose|k: int| 0 <= k < front.len() && front[k] == cap_text(n);
            assert(all[k] == cap_text(n));
        }
        if all.len() > front.len() {
            assert(all[front.len() as int] == cap_text(last));
        }
        assert forall|i: int| 0 <= i < all.len() implies is_held(set, #[trigger] all[i]) by {
            if i < front.len() {
                assert(front[i] == all[i]);
            } else {
                assert(cap_text(last) == all[i]);
            }
        }
    }
}

/// No capability is told as such, and any other set by its names.
pub proof fn law_no_capability_is_told_as_none(set: u64)
    ensures
        caps_text(0) == "none"@,
        set != 0 ==> caps_text(set) == join(caps_below(set, 64), ","@),
{
}

} // verus!
