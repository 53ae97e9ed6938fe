//! What reports look like as text, line by line.
use vstd::prelude::*;

use crate::logging::quoted;
use crate::order::{in_order, lemma_in_both};
use crate::reconcile::observe::ObservedView;
use crate::reconcile::plan::PlanView;
use crate::report::{
    all_statuses, any_shown, blanks, check_lines, group_rows, group_text, group_texts,
    ignored_line,
    law_statuses_are_sorted, member_lines, members_text, note_lines, padded, row, rows,
    sorted_statuses,
    status_text, statuses_by_key, statuses_noted, widest, CheckView, GroupReportView, MemberState,
    MemberStatusView, StatusReportView,
};
use crate::state::{KeyView, RecordKey, RecordView};
use crate::text::{byte_len, decimal, join};

verus! {

/// A member has one line: its group and name, its state, and its target and
/// detail as far as they are known. Members that are mounted are left out
/// where not all are asked for.
pub proof fn law_members_have_their_line(members: Seq<MemberStatusView>, m: MemberStatusView)
    ensures
        ({
            let start = m.group + "/"@ + m.name + "  state="@ + m.state.text();
            let line = match (m.target, m.detail) {
                (None, None) => start + "\n"@,
                (Some(t), None) => start + "  target="@ + quoted(t) + "\n"@,
                (None, Some(d)) => start + "  detail="@ + quoted(d) + "\n"@,
                (Some(t), Some(d)) => start + "  target="@ + quoted(t) + "  detail="@ + quoted(d)
                    + "\n"@,
            };
            &&& member_lines(members.push(m), true) == member_lines(members, true) + line
            &&& m.state != MemberState::Mounted ==> member_lines(members.push(m), false)
                == member_lines(members, false) + line
            &&& m.state == MemberState::Mounted ==> member_lines(members.push(m), false)
                == member_lines(members, false)
        }),
        member_lines(Seq::empty(), true).len() == 0,
        member_lines(Seq::empty(), false).len() == 0,
{
    assert(members.push(m).drop_last() =~= members);
    let start = m.group + "/"@ + m.name + "  state="@ + m.state.text();
    let line = match (m.target, m.detail) {
        (None, None) => start + "\n"@,
        (Some(t), None) => start + "  target="@ + quoted(t) + "\n"@,
        (None, Some(d)) => start + "  detail="@ + quoted(d) + "\n"@,
        (Some(t), Some(d)) => start + "  target="@ + quoted(t) + "  detail="@ + quoted(d) + "\n"@,
    };
    assert(crate::report::member_line(m) =~= line);
}

/// The members follow behind an empty line, and not even that is there where no
/// member is shown.
pub proof fn law_no_members_take_no_lines(members: Seq<MemberStatusView>, all: bool, i: int)
    requires
        0 <= i < members.len(),
    ensures
        members_text(Seq::empty(), all).len() == 0,
        all || members[i].state != MemberState::Mounted ==> members_text(members, all) == "\n"@
            + member_lines(members, all),
        !all && (forall|k: int|
            0 <= k < members.len() ==> (#[trigger] members[k]).state == MemberState::Mounted)
            ==> members_text(members, all).len() == 0,
{
    assert(!any_shown(Seq::empty(), all));
    if all || members[i].state != MemberState::Mounted {
        assert(any_shown(members, all));
    }
}

proof fn lemma_blanks(n: int)
    ensures
        blanks(n).len() == (if n <= 0 {
            0
        } else {
            n
        }),
        forall|i: int| 0 <= i < blanks(n).len() ==> #[trigger] blanks(n)[i] == ' ',
    decreases n,
{
    if n > 0 {
        lemma_blanks(n - 1);
    }
}

/// A name is filled up with blanks to a width, and never cut.
pub proof fn law_names_are_padded(s: Seq<char>, width: nat)
    ensures
        padded(s, width).take(s.len() as int) == s,
        padded(s, width).len() == (if s.len() < width {
            width
        } else {
            s.len()
        }),
        forall|i: int| s.len() <= i < padded(s, width).len() ==> #[trigger] padded(s, width)[i]
            == ' ',
{
    lemma_blanks(width - s.len());
    assert(padded(s, width).take(s.len() as int) =~= s);
}

/// The checks are as wide as the widest of their names.
pub proof fn law_checks_are_as_wide_as_the_widest(checks: Seq<CheckView>)
    ensures
        forall|i: int|
            0 <= i < checks.len() ==> byte_len((#[trigger] checks[i]).name) <= widest(checks),
        widest(checks) == 0 || exists|i: int|
            0 <= i < checks.len() && byte_len((#[trigger] checks[i]).name) == widest(checks),
    decreases checks.len(),
{
    if checks.len() > 0 {
        let front = checks.drop_last();
        law_checks_are_as_wide_as_the_widest(front);
        let n = checks.len() - 1;
        assert(checks[n] == checks.last());
        assert forall|i: int| 0 <= i < checks.len() implies byte_len((#[trigger] checks[i]).name)
            <= widest(checks) by {
            if i < front.len() {
                assert(front[i] == checks[i]);
            }
        }
        if widest(checks) != 0 {
            if byte_len(checks.last().name) > widest(front) {
                assert(byte_len(checks[n].name) == widest(checks));
            } else {
                let i = choose|i: int|
                    0 <= i < front.len() && byte_len((#[trigger] front[i]).name) == widest(front);
                assert(byte_len(checks[i].name) == widest(checks));
            }
        }
    }
}

/// A check has one line: its name, how it went, and why where there is more to
/// say.
pub proof fn law_checks_have_their_line(checks: Seq<CheckView>, c: CheckView, width: nat)
    ensures
        check_lines(Seq::empty(), width).len() == 0,
        c.detail.len() == 0 ==> check_lines(checks.push(c), width) == check_lines(checks, width)
            + padded(c.name, width) + " = "@ + c.level.text() + "\n"@,
        c.detail.len() > 0 ==> check_lines(checks.push(c), width) == check_lines(checks, width)
            + padded(c.name, width) + " = "@ + c.level.text() + " ("@ + c.detail + ")\n"@,
{
    reveal_strlit(")");
    reveal_strlit("\n");
    reveal_strlit(")\n");
    assert(checks.push(c).drop_last() =~= checks);
    let before = check_lines(checks, width);
    let after = check_lines(checks.push(c), width);
    if c.detail.len() == 0 {
        assert(after =~= before + padded(c.name, width) + " = "@ + c.level.text() + "\n"@);
    } else {
        assert(after =~= before + padded(c.name, width) + " = "@ + c.level.text() + " ("@ + c.detail
            + ")\n"@);
    }
}

/// A row is a name, filled up to sixteen places, and a value; rows stand below
/// each other.
pub proof fn law_rows_are_names_and_values(
    all: Seq<(Seq<char>, Seq<char>)>,
    key: Seq<char>,
    value: Seq<char>,
)
    ensures
        rows(Seq::empty()).len() == 0,
        rows(all.push((key, value))) == rows(all) + "  "@ + padded(key, 16) + " = "@ + value
            + "\n"@,
{
    assert(all.push((key, value)).drop_last() =~= all);
    assert(rows(all.push((key, value))) =~= rows(all) + "  "@ + padded(key, 16) + " = "@ + value
        + "\n"@);
}

/// The rows of a group are, in this order, its membership directory, how it
/// propagates, its members, the rejected and ignored entries, the sources that
/// are there and not, the mounts that are there, would be made and would go, and
/// the conflicts.
pub proof fn law_groups_have_their_rows(g: GroupReportView)
    ensures
        group_rows(g).len() == 11,
        group_rows(g)[0] == ("membership_dir"@, g.membership_dir),
        group_rows(g)[1] == ("propagation"@, g.propagation),
        group_rows(g)[2] == ("members"@, decimal(g.members)),
        group_rows(g)[3] == ("rejected"@, decimal(g.rejected)),
        group_rows(g)[4] == ("ignored"@, decimal(g.ignored)),
        group_rows(g)[5] == ("sources_valid"@, decimal(g.sources_valid)),
        group_rows(g)[6] == ("sources_missing"@, decimal(g.sources_missing)),
        group_rows(g)[7] == ("existing_mounts"@, decimal(g.existing_mounts)),
        group_rows(g)[8] == ("would_create"@, decimal(g.would_create)),
        group_rows(g)[9] == ("would_remove"@, decimal(g.would_remove)),
        group_rows(g)[10] == ("conflicts"@, decimal(g.conflicts)),
{
}

proof fn lemma_group_text(g: GroupReportView)
    ensures
        ({
            let problems = join(g.problems, "; "@);
            let all = if problems.len() == 0 {
                group_rows(g)
            } else {
                group_rows(g).push(("problems"@, problems))
            };
            group_text(g) == "\ngroup="@ + g.name + "  status="@ + g.status.text() + "\n"@ + rows(
                all,
            )
        }),
{
    let problems = join(g.problems, "; "@);
    let numbers = group_rows(g);
    assert(numbers.push(("problems"@, problems)).drop_last() =~= numbers);
    let head = "\ngroup="@ + g.name + "  status="@ + g.status.text() + "\n"@;
    if problems.len() == 0 {
        assert(group_text(g) =~= head + rows(numbers));
    } else {
        assert(group_text(g) =~= head + (rows(numbers) + row("problems"@, problems)));
    }
}

/// A group is told by its name and status, then its rows; its problems follow,
/// if it has any.
pub proof fn law_groups_are_told_in_order(groups: Seq<GroupReportView>, g: GroupReportView)
    ensures
        group_texts(Seq::empty()).len() == 0,
        ({
            let problems = join(g.problems, "; "@);
            let all = if problems.len() == 0 {
                group_rows(g)
            } else {
                group_rows(g).push(("problems"@, problems))
            };
            group_texts(groups.push(g)) == group_texts(groups) + ("\ngroup="@ + g.name
                + "  status="@ + g.status.text() + "\n"@ + rows(all))
        }),
{
    assert(groups.push(g).drop_last() =~= groups);
    lemma_group_text(g);
}

/// Each note of a status has its line, and the entries ignored in a group have
/// theirs, with their number.
pub proof fn law_status_tells_its_notes(
    notes: Seq<Seq<char>>,
    note: Seq<char>,
    group: Seq<char>,
    n: usize,
)
    ensures
        note_lines(Seq::empty()).len() == 0,
        note_lines(notes.push(note)) == note_lines(notes) + "note: "@ + note + "\n"@,
        n != 1 ==> ignored_line(group, n) == "ignored: group '"@ + group + "': "@ + decimal(
            n as nat,
        ) + " hidden entries\n"@,
        ignored_line(group, 1) == "ignored: group '"@ + group + "': 1 hidden entry\n"@,
{
    reveal_strlit("': ");
    reveal_strlit("': 1 hidden entry\n");
    reveal_strlit(" hidden entr");
    reveal_strlit(" hidden entries\n");
    reveal_strlit("y");
    reveal_strlit("ies");
    reveal_strlit("\n");
    assert(notes.push(note).drop_last() =~= notes);
    assert(note_lines(notes.push(note)) =~= note_lines(notes) + "note: "@ + note + "\n"@);
    if n != 1 {
        assert(ignored_line(group, n) =~= "ignored: group '"@ + group + "': "@ + decimal(n as nat)
            + " hidden entries\n"@);
    }
    assert(decimal(1) =~= seq!['1']);
    assert(ignored_line(group, 1) =~= "ignored: group '"@ + group + "': 1 hidden entry\n"@);
}

/// A status with nothing to tell names the state file, and whether it could be
/// read, and says that there are no members.
pub proof fn law_empty_status_names_the_state_file(s: StatusReportView)
    requires
        s.notes.len() == 0,
        s.ignored == Map::<Seq<char>, usize>::empty(),
        s.members.len() == 0,
    ensures
        s.ownership_known ==> status_text(s) == "state_file = "@ + s.state_file
            + "\n\nno members\n"@,
        !s.ownership_known ==> status_text(s) == "state_file = "@ + s.state_file
            + " (unreadable: ownership unknown)\n\nno members\n"@,
{
    reveal_strlit("\n");
    reveal_strlit("\nno members\n");
    reveal_strlit("\n\nno members\n");
    reveal_strlit(" (unreadable: ownership unknown)");
    reveal_strlit(" (unreadable: ownership unknown)\n\nno members\n");
    assert(s.ignored.dom() =~= Set::<Seq<char>>::empty());
    let groups = in_order::<String>(s.ignored.dom());
    crate::order::lemma_in_order_finite::<String>(s.ignored.dom());
    if groups.len() > 0 {
        assert(groups.to_set().contains(groups[0]));
    }
    assert(!any_shown(s.members, true));
    if s.ownership_known {
        assert(status_text(s) =~= "state_file = "@ + s.state_file + "\n\nno members\n"@);
    } else {
        assert(status_text(s) =~= "state_file = "@ + s.state_file
            + " (unreadable: ownership unknown)\n\nno members\n"@);
    }
}

/// A report lists the status of every member and of every rejected entry, and
/// nothing else.
pub proof fn law_every_status_is_listed(
    o: ObservedView,
    plan: PlanView,
    state: Map<KeyView, RecordView>,
    ownership_known: bool,
    status: MemberStatusView,
)
    requires
        statuses_by_key(o, plan, state, ownership_known).dom().finite(),
    ensures
        ({
            let m = statuses_by_key(o, plan, state, ownership_known);
            all_statuses(o, plan, state, ownership_known).contains(status) <==> {
                ||| exists|k: KeyView| #[trigger] m.contains_key(k) && m[k] == status
                ||| statuses_noted(o.notes).contains(status)
            }
        }),
{
    let m = statuses_by_key(o, plan, state, ownership_known);
    let keys = in_order::<RecordKey>(m.dom());
    let a = keys.map_values(|k: KeyView| m[k]);
    let b = statuses_noted(o.notes);
    let s = a + b;
    law_statuses_are_sorted(s);
    lemma_in_both(a, b, status);
    s.to_multiset_ensures();
    sorted_statuses(s).to_multiset_ensures();
    assert(s.contains(status) <==> s.to_multiset().count(status) > 0);
    assert(sorted_statuses(s).contains(status) <==> sorted_statuses(s).to_multiset().count(status)
        > 0);
    crate::order::lemma_in_order_finite::<RecordKey>(m.dom());
    if a.contains(status) {
        let i = choose|i: int| 0 <= i < a.len() && a[i] == status;
        assert(keys.to_set().contains(keys[i]));
        assert(m.contains_key(keys[i]));
    }
    if exists|k: KeyView| #[trigger] m.contains_key(k) && m[k] == status {
        let k = choose|k: KeyView| #[trigger] m.contains_key(k) && m[k] == status;
        assert(keys.to_set().contains(k));
        let i = choose|i: int| 0 <= i < keys.len() && keys[i] == k;
        assert(a[i] == status);
    }
}

} // verus!
