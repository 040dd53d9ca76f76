//! What the per-team, per-volunteer and per-division reports show: team
//! cards, volunteer rosters, the one-line activity summaries, and the
//! selections of assignments that each report covers.
use vstd::prelude::*;
use crate::export::{
    ascii_only, clean_text, day_abbr, division_name_of, field_name_of,
    format_time_str, org_lookup, org_of, push_quoted, quoted, spec_day_abbr, spec_format_time_str,
    activity_division_name, assignment_field_name, };
use crate::helpers::{parse_time_to_minutes, spec_lenient_minutes};
use crate::lookup::{
    division_has_id, field_has_id, find_division, find_field, find_first, find_slot, slot_has_id,
};
use crate::model::{Activity, ScheduleAssignment, Team, TournamentConfig, Volunteer};
use crate::sorting::{
    day_time_le, day_time_view, lemma_stable_order_of, lemma_stable_order_transfer, permuted,
    sorted_by, stable_order,
};
use crate::text::{
    decimal, push_char, push_decimal, push_str, string_from, trim, trimmed, };

verus! {

broadcast use vstd::string::group_string_axioms;

// ---------------------------------------------------------------------------
// Activity summaries
// ---------------------------------------------------------------------------

/// Division name followed by the organisations involved:
/// `"<division> - <org>"`, `"<division> - <org a> / <org b>"`, or just the
/// division when no organisation is known. An unknown division shows its id.
pub open spec fn spec_activity_metadata(config: TournamentConfig, act: Activity) -> Seq<char> {
    let div_id = act.spec_division_id();
    let div_name = match find_first(config.divisions@, division_has_id(div_id)) {
        Some(d) => d.name@,
        None => div_id,
    };
    match act {
        Activity::Match { team_a, team_b, .. } => {
            let oa = org_of(config.teams@, team_a@);
            let ob = org_of(config.teams@, team_b@);
            if oa == ob && oa.len() > 0 {
                div_name + " - "@ + oa
            } else if oa.len() > 0 && ob.len() > 0 {
                div_name + " - "@ + oa + " / "@ + ob
            } else if oa.len() > 0 {
                div_name + " - "@ + oa
            } else if ob.len() > 0 {
                div_name + " - "@ + ob
            } else {
                div_name
            }
        },
        Activity::Run { team, .. } => {
            let o = org_of(config.teams@, team@);
            if o.len() > 0 {
                div_name + " - "@ + o
            } else {
                div_name
            }
        },
        Activity::Interview { team, .. } => {
            let o = org_of(config.teams@, team@);
            if o.len() > 0 {
                div_name + " - "@ + o
            } else {
                div_name
            }
        },
    }
}

/// The division an activity is summarised under: the name of the first
/// division with its id, or the id itself.
pub open spec fn shown_division(config: TournamentConfig, act: Activity) -> Seq<char> {
    match find_first(config.divisions@, division_has_id(act.spec_division_id())) {
        Some(d) => d.name@,
        None => act.spec_division_id(),
    }
}

/// The summary of an activity starts with its division. For a match between
/// teams of two different organisations, both known, it goes on with
/// ` - `, the first team's organisation, ` / ` and the second team's
/// organisation, and nothing else.
pub proof fn lemma_metadata_names_both_schools(config: TournamentConfig, act: Activity)
    ensures
        ({
            let r = spec_activity_metadata(config, act);
            let dn = shown_division(config, act);
            &&& r.take(dn.len() as int) == dn
            &&& act matches Activity::Match { team_a, team_b, .. } ==> {
                let oa = org_of(config.teams@, team_a@);
                let ob = org_of(config.teams@, team_b@);
                let d = dn.len() as int;
                let o = oa.len() as int;
                oa.len() > 0 && ob.len() > 0 && oa != ob ==> {
                    &&& r.len() == d + o + ob.len() + 6
                    &&& r.subrange(d, d + 3) == " - "@
                    &&& r.subrange(d + 3, d + 3 + o) == oa
                    &&& r.subrange(d + 3 + o, d + 6 + o) == " / "@
                    &&& r.skip(r.len() - ob.len()) == ob
                }
            }
        }),
{
    let r = spec_activity_metadata(config, act);
    let dn = shown_division(config, act);
    lemma_metadata_prefix(config, act);
    match act {
        Activity::Match { team_a, team_b, .. } => {
            let oa = org_of(config.teams@, team_a@);
            let ob = org_of(config.teams@, team_b@);
            if oa.len() > 0 && ob.len() > 0 && oa != ob {
                assert(r == dn + " - "@ + oa + " / "@ + ob);
                lemma_joined(dn, oa, ob);
            }
        },
        _ => {},
    }
}

proof fn lemma_prefix(a: Seq<char>, b: Seq<char>)
    ensures
        (a + b).take(a.len() as int) == a,
{
    assert((a + b).take(a.len() as int) =~= a);
}

#[verifier::rlimit(40)]
proof fn lemma_metadata_prefix(config: TournamentConfig, act: Activity)
    ensures
        spec_activity_metadata(config, act).take(shown_division(config, act).len() as int) == shown_division(config, act),
{
    let dn = shown_division(config, act);
    let r = spec_activity_metadata(config, act);
    match act {
        Activity::Match { team_a, team_b, .. } => {
            let oa = org_of(config.teams@, team_a@);
            let ob = org_of(config.teams@, team_b@);
            if oa == ob && oa.len() > 0 {
                lemma_prefix(dn, " - "@ + oa);
                assert(r =~= dn + (" - "@ + oa));
            } else if oa.len() > 0 && ob.len() > 0 {
                lemma_prefix(dn, " - "@ + oa + " / "@ + ob);
                assert(r =~= dn + (" - "@ + oa + " / "@ + ob));
            } else if oa.len() > 0 {
                lemma_prefix(dn, " - "@ + oa);
                assert(r =~= dn + (" - "@ + oa));
            } else if ob.len() > 0 {
                lemma_prefix(dn, " - "@ + ob);
                assert(r =~= dn + (" - "@ + ob));
            } else {
                assert(r == dn);
                assert(dn.take(dn.len() as int) =~= dn);
            }
        },
        Activity::Run { team, .. } => {
            let o = org_of(config.teams@, team@);
            if o.len() > 0 {
                lemma_prefix(dn, " - "@ + o);
                assert(r =~= dn + (" - "@ + o));
            } else {
                assert(r == dn);
                assert(dn.take(dn.len() as int) =~= dn);
            }
        },
        Activity::Interview { team, .. } => {
            let o = org_of(config.teams@, team@);
            if o.len() > 0 {
                lemma_prefix(dn, " - "@ + o);
                assert(r =~= dn + (" - "@ + o));
            } else {
                assert(r == dn);
                assert(dn.take(dn.len() as int) =~= dn);
            }
        },
    }
}

proof fn lemma_joined(dn: Seq<char>, oa: Seq<char>, ob: Seq<char>)
    ensures
        ({
            let r = dn + " - "@ + oa + " / "@ + ob;
            let d = dn.len() as int;
            let o = oa.len() as int;
            &&& r.len() == d + o + ob.len() + 6
            &&& r.subrange(d, d + 3) == " - "@
            &&& r.subrange(d + 3, d + 3 + o) == oa
            &&& r.subrange(d + 3 + o, d + 6 + o) == " / "@
            &&& r.skip(r.len() - ob.len()) == ob
        }),
{
    reveal_strlit(" - ");
    reveal_strlit(" / ");
    let r = dn + " - "@ + oa + " / "@ + ob;
    let d = dn.len() as int;
    let o = oa.len() as int;
    assert(r.subrange(d, d + 3) =~= " - "@);
    assert(r.subrange(d + 3, d + 3 + o) =~= oa);
    assert(r.subrange(d + 3 + o, d + 6 + o) =~= " / "@);
    assert(r.skip(r.len() - ob.len()) =~= ob);
}

/// One-line summary of who an activity involves, for the printed schedule.
pub fn get_activity_metadata(config: &TournamentConfig, activity: &Activity) -> (r: String)
    ensures
        r@ == spec_activity_metadata(*config, *activity),
{
    let div_name = match find_division(&config.divisions, activity.division_id()) {
        Some(i) => config.divisions[i].name.clone(),
        None => string_from(activity.division_id()),
    };
    let mut out = div_name;
    match activity {
        Activity::Match { team_a, team_b, .. } => {
            let org_a = org_lookup(&config.teams, team_a.as_str());
            let org_b = org_lookup(&config.teams, team_b.as_str());
            let a_empty = org_a.as_str().is_empty();
            let b_empty = org_b.as_str().is_empty();
            if org_a == org_b && !a_empty {
                push_str(&mut out, " - ");
                push_str(&mut out, org_a.as_str());
            } else if !a_empty && !b_empty {
                push_str(&mut out, " - ");
                push_str(&mut out, org_a.as_str());
                push_str(&mut out, " / ");
                push_str(&mut out, org_b.as_str());
            } else if !a_empty {
                push_str(&mut out, " - ");
                push_str(&mut out, org_a.as_str());
            } else if !b_empty {
                push_str(&mut out, " - ");
                push_str(&mut out, org_b.as_str());
            }
        },
        Activity::Run { team, .. } => {
            let org = org_lookup(&config.teams, team.as_str());
            if !org.as_str().is_empty() {
                push_str(&mut out, " - ");
                push_str(&mut out, org.as_str());
            }
        },
        Activity::Interview { team, .. } => {
            let org = org_lookup(&config.teams, team.as_str());
            if !org.as_str().is_empty() {
                push_str(&mut out, " - ");
                push_str(&mut out, org.as_str());
            }
        },
    }
    out
}

// ---------------------------------------------------------------------------
// Selections of assignments
// ---------------------------------------------------------------------------

/// The activity involves the named team.
pub open spec fn involves_team(a: ScheduleAssignment, name: Seq<char>) -> bool {
    a.activity.spec_teams().contains(name)
}

/// The volunteer with this id is rostered on the assignment.
pub open spec fn rosters_volunteer(a: ScheduleAssignment, id: Seq<char>) -> bool {
    exists|i: int| 0 <= i < a.volunteer_ids@.len() && (#[trigger] a.volunteer_ids@[i])@ == id
}

/// The activity belongs to the division with this id.
pub open spec fn in_division(a: ScheduleAssignment, id: Seq<char>) -> bool {
    a.activity.spec_division_id() == id
}

/// The positions of `items` satisfying `p`, in order.
pub open spec fn positions_where(items: Seq<ScheduleAssignment>, p: spec_fn(ScheduleAssignment) -> bool) -> Seq<usize>
    decreases items.len(),
{
    if items.len() == 0 {
        Seq::empty()
    } else if p(items.last()) {
        positions_where(items.drop_last(), p).push((items.len() - 1) as usize)
    } else {
        positions_where(items.drop_last(), p)
    }
}

/// The elements of `items` satisfying `p`, in order.
pub open spec fn select(items: Seq<ScheduleAssignment>, p: spec_fn(ScheduleAssignment) -> bool) -> Seq<ScheduleAssignment> {
    permuted(items, positions_where(items, p))
}

pub open spec fn for_team(name: Seq<char>) -> spec_fn(ScheduleAssignment) -> bool {
    |a: ScheduleAssignment| involves_team(a, name)
}

pub open spec fn for_volunteer(id: Seq<char>) -> spec_fn(ScheduleAssignment) -> bool {
    |a: ScheduleAssignment| rosters_volunteer(a, id)
}

pub open spec fn for_division(id: Seq<char>) -> spec_fn(ScheduleAssignment) -> bool {
    |a: ScheduleAssignment| in_division(a, id)
}

pub(crate) proof fn lemma_positions_bounded(items: Seq<ScheduleAssignment>, p: spec_fn(ScheduleAssignment) -> bool)
    requires
        items.len() <= usize::MAX,
    ensures
        forall|k: int| 0 <= k < positions_where(items, p).len() ==> #[trigger] positions_where(items, p)[k] < items.len(),
        forall|k: int| 0 <= k < positions_where(items, p).len() ==> p(items[positions_where(items, p)[k] as int]),
    decreases items.len(),
{
    if items.len() > 0 {
        let d = items.drop_last();
        lemma_positions_bounded(d, p);
        let prev = positions_where(d, p);
        let cur = positions_where(items, p);
        assert forall|k: int| 0 <= k < cur.len() implies #[trigger] cur[k] < items.len() && p(items[cur[k] as int]) by {
            if p(items.last()) {
                assert(cur == prev.push((items.len() - 1) as usize));
                if k < prev.len() {
                    assert(cur[k] == prev[k]);
                    assert(items[prev[k] as int] == d[prev[k] as int]);
                } else {
                    assert(cur[k] == items.len() - 1);
                }
            } else {
                assert(cur == prev);
                assert(items[prev[k] as int] == d[prev[k] as int]);
            }
        }
    }
}

/// Whether the activity involves the named team.
pub fn activity_involves_team(a: &ScheduleAssignment, name: &str) -> (r: bool)
    ensures
        r == involves_team(*a, name@),
{
    let teams = a.activity.teams();
    let mut i: usize = 0;
    while i < teams.len()
        invariant
            i <= teams@.len(),
            teams@.len() == a.activity.spec_teams().len(),
            forall|k: int| 0 <= k < teams@.len() ==> (#[trigger] teams@[k])@ == a.activity.spec_teams()[k],
            forall|k: int| 0 <= k < i ==> a.activity.spec_teams()[k] != name@,
        decreases teams.len() - i,
    {
        if crate::text::same_text(teams[i], name) {
            assert(a.activity.spec_teams()[i as int] == name@);
            return true;
        }
        i = i + 1;
    }
    false
}

/// Whether the volunteer with this id is rostered on the assignment.
pub fn assignment_has_volunteer(a: &ScheduleAssignment, id: &str) -> (r: bool)
    ensures
        r == rosters_volunteer(*a, id@),
{
    crate::lookup::contains_string(&a.volunteer_ids, id)
}

/// Whether the assignment's activity belongs to the division.
pub fn assignment_in_division(a: &ScheduleAssignment, id: &str) -> (r: bool)
    ensures
        r == in_division(*a, id@),
{
    crate::text::same_text(a.activity.division_id(), id)
}

/// Positions of the assignments involving a team, in order.
pub fn team_positions(assignments: &[ScheduleAssignment], name: &str) -> (r: Vec<usize>)
    ensures
        r@ == positions_where(assignments@, for_team(name@)),
{
    let ghost p = for_team(name@);
    let mut out: Vec<usize> = Vec::new();
    let mut i: usize = 0;
    while i < assignments.len()
        invariant
            i <= assignments@.len(),
            p == for_team(name@),
            out@ == positions_where(assignments@.take(i as int), p),
        decreases assignments.len() - i,
    {
        let ghost t = assignments@.take(i + 1);
        assert(t.drop_last() == assignments@.take(i as int));
        assert(t.last() == assignments@[i as int]);
        if activity_involves_team(&assignments[i], name) {
            out.push(i);
        }
        i = i + 1;
    }
    assert(assignments@.take(assignments@.len() as int) =~= assignments@);
    out
}

/// Positions of the assignments rostering a volunteer, in order.
pub fn volunteer_positions(assignments: &[ScheduleAssignment], id: &str) -> (r: Vec<usize>)
    ensures
        r@ == positions_where(assignments@, for_volunteer(id@)),
{
    let ghost p = for_volunteer(id@);
    let mut out: Vec<usize> = Vec::new();
    let mut i: usize = 0;
    while i < assignments.len()
        invariant
            i <= assignments@.len(),
            p == for_volunteer(id@),
            out@ == positions_where(assignments@.take(i as int), p),
        decreases assignments.len() - i,
    {
        let ghost t = assignments@.take(i + 1);
        assert(t.drop_last() == assignments@.take(i as int));
        assert(t.last() == assignments@[i as int]);
        if assignment_has_volunteer(&assignments[i], id) {
            out.push(i);
        }
        i = i + 1;
    }
    assert(assignments@.take(assignments@.len() as int) =~= assignments@);
    out
}

/// Positions of the assignments of a division, in order.
pub fn division_positions(assignments: &[ScheduleAssignment], id: &str) -> (r: Vec<usize>)
    ensures
        r@ == positions_where(assignments@, for_division(id@)),
{
    let ghost p = for_division(id@);
    let mut out: Vec<usize> = Vec::new();
    let mut i: usize = 0;
    while i < assignments.len()
        invariant
            i <= assignments@.len(),
            p == for_division(id@),
            out@ == positions_where(assignments@.take(i as int), p),
        decreases assignments.len() - i,
    {
        let ghost t = assignments@.take(i + 1);
        assert(t.drop_last() == assignments@.take(i as int));
        assert(t.last() == assignments@[i as int]);
        if assignment_in_division(&assignments[i], id) {
            out.push(i);
        }
        i = i + 1;
    }
    assert(assignments@.take(assignments@.len() as int) =~= assignments@);
    out
}

// ---------------------------------------------------------------------------
// Ordering by slot day and start time
// ---------------------------------------------------------------------------

/// Sort key of an assignment read with the lenient clock reader: its slot's
/// day and start minute, `None` when the slot is unknown.
pub open spec fn clock_key(config: TournamentConfig, a: ScheduleAssignment) -> Option<(Seq<char>, nat)> {
    match find_first(config.time_slots@, slot_has_id(a.time_slot_id@)) {
        Some(s) => Some((s.day@, spec_lenient_minutes(s.start_time@))),
        None => None,
    }
}

pub open spec fn clock_keys(config: TournamentConfig, items: Seq<ScheduleAssignment>) -> Seq<Option<(Seq<char>, nat)>> {
    Seq::new(items.len(), |i: int| clock_key(config, items[i]))
}

pub open spec fn clock_order() -> spec_fn(Option<(Seq<char>, nat)>, Option<(Seq<char>, nat)>) -> bool {
    |x: Option<(Seq<char>, nat)>, y: Option<(Seq<char>, nat)>| day_time_le(x, y)
}

/// `items` ordered by slot day and start time, ties in their given order.
pub open spec fn by_clock(config: TournamentConfig, items: Seq<ScheduleAssignment>) -> Seq<ScheduleAssignment> {
    sorted_by(items, clock_keys(config, items), clock_order())
}

/// The positions `idx` of `assignments`, reordered by slot day and start
/// time (stable).
pub fn order_by_clock(config: &TournamentConfig, assignments: &[ScheduleAssignment], idx: &Vec<usize>) -> (r: Vec<usize>)
    requires
        config.slot_times_fit(),
        forall|k: int| 0 <= k < idx@.len() ==> #[trigger] idx@[k] < assignments@.len(),
    ensures
        forall|k: int| 0 <= k < r@.len() ==> #[trigger] r@[k] < assignments@.len(),
        permuted(assignments@, r@) == by_clock(*config, permuted(assignments@, idx@)),
{
    let ghost items = permuted(assignments@, idx@);
    let ghost views = clock_keys(*config, items);
    let mut keys: Vec<Option<(String, u32)>> = Vec::new();
    let mut i: usize = 0;
    while i < idx.len()
        invariant
            i <= idx@.len(),
            config.slot_times_fit(),
            forall|k: int| 0 <= k < idx@.len() ==> #[trigger] idx@[k] < assignments@.len(),
            items == permuted(assignments@, idx@),
            views == clock_keys(*config, items),
            keys@.len() == i,
            forall|k: int| 0 <= k < i ==> day_time_view(#[trigger] keys@[k]) == views[k],
        decreases idx.len() - i,
    {
        let a = &assignments[idx[i]];
        match find_slot(&config.time_slots, a.time_slot_id.as_str()) {
            Some(j) => {
                let slot = &config.time_slots[j];
                assert(slot.times_fit());
                let m = parse_time_to_minutes(slot.start_time.as_str());
                keys.push(Some((slot.day.clone(), m)));
            },
            None => {
                keys.push(None);
            },
        }
        i = i + 1;
    }
    let perm = stable_order(&keys);
    proof {
        lemma_stable_order_transfer(keys@, views, clock_order(), perm@);
        lemma_stable_order_of(views, clock_order(), perm@);
    }
    let mut out: Vec<usize> = Vec::new();
    let mut k: usize = 0;
    while k < perm.len()
        invariant
            k <= perm@.len(),
            perm@.len() == idx@.len(),
            forall|a: int| 0 <= a < perm@.len() ==> #[trigger] perm@[a] < idx@.len(),
            forall|a: int| 0 <= a < idx@.len() ==> #[trigger] idx@[a] < assignments@.len(),
            out@.len() == k,
            forall|a: int| 0 <= a < k ==> #[trigger] out@[a] == idx@[perm@[a] as int],
        decreases perm.len() - k,
    {
        out.push(idx[perm[k]]);
        k = k + 1;
    }
    assert(permuted(assignments@, out@) =~= permuted(items, perm@));
    out
}

// ---------------------------------------------------------------------------
// Team cards
// ---------------------------------------------------------------------------

/// A single team's personal schedule, as plain text rows of
/// (time, detail, field).
pub struct TeamCard {
    pub name: String,
    pub org: String,
    pub rows: Vec<(String, String, String)>,
}

/// What a team card row says about the activity: the opponent, the run
/// number, or that it is an interview.
pub open spec fn card_detail(team_name: Seq<char>, act: Activity) -> Seq<char> {
    match act {
        Activity::Match { team_a, team_b, .. } => "vs "@ + ascii_only(
            if team_a@ == team_name { team_b@ } else { team_a@ },
        ),
        Activity::Run { run_number, .. } => "Run #"@ + decimal(run_number as nat),
        Activity::Interview { .. } => "Interview"@,
    }
}

/// The field shown on a card: its cleaned name, or `-` when unknown.
pub open spec fn card_field(config: TournamentConfig, a: ScheduleAssignment) -> Seq<char> {
    match a.field_id {
        Some(fid) => match find_first(config.fields@, field_has_id(fid@)) {
            Some(f) => ascii_only(f.name@),
            None => "-"@,
        },
        None => "-"@,
    }
}

/// The card row for one assignment, `None` when its slot is unknown.
pub open spec fn card_row(config: TournamentConfig, team_name: Seq<char>, a: ScheduleAssignment, t12: bool) -> Option<(Seq<char>, Seq<char>, Seq<char>)> {
    match find_first(config.time_slots@, slot_has_id(a.time_slot_id@)) {
        Some(s) => Some(
            (
                spec_day_abbr(s.day@) + seq![' '] + spec_format_time_str(s.start_time@, t12),
                card_detail(team_name, a.activity),
                card_field(config, a),
            ),
        ),
        None => None,
    }
}

/// Rows of a team card for `items` (assignments whose slot is unknown are
/// left out).
pub open spec fn card_rows(config: TournamentConfig, team_name: Seq<char>, items: Seq<ScheduleAssignment>, t12: bool) -> Seq<(Seq<char>, Seq<char>, Seq<char>)>
    decreases items.len(),
{
    if items.len() == 0 {
        Seq::empty()
    } else {
        let prev = card_rows(config, team_name, items.drop_last(), t12);
        match card_row(config, team_name, items.last(), t12) {
            Some(row) => prev.push(row),
            None => prev,
        }
    }
}

/// One row of a team card, `None` when the assignment's slot is unknown.
fn card_row_text(config: &TournamentConfig, team: &Team, assign: &ScheduleAssignment, time_12h: bool) -> (r: Option<(String, String, String)>)
    ensures
        match card_row(*config, team.name@, *assign, time_12h) {
            Some(row) => r matches Some(t) && t.0@ == row.0 && t.1@ == row.1 && t.2@ == row.2,
            None => r is None,
        },
{
    match find_slot(&config.time_slots, assign.time_slot_id.as_str()) {
        None => None,
        Some(si) => {
            let slot = &config.time_slots[si];
            let field_name = match &assign.field_id {
                Some(fid) => match find_field(&config.fields, fid.as_str()) {
                    Some(fi) => clean_text(config.fields[fi].name.as_str()),
                    None => string_from("-"),
                },
                None => string_from("-"),
            };
            let detail = match &assign.activity {
                Activity::Match { team_a, team_b, .. } => {
                    let opp = if *team_a == team.name { team_b } else { team_a };
                    let mut d = string_from("vs ");
                    let c = clean_text(opp.as_str());
                    push_str(&mut d, c.as_str());
                    d
                },
                Activity::Run { run_number, .. } => {
                    let mut d = string_from("Run #");
                    push_decimal(&mut d, *run_number as u64);
                    d
                },
                Activity::Interview { .. } => string_from("Interview"),
            };
            let mut time = String::new();
            push_str(&mut time, day_abbr(slot.day.as_str()).as_str());
            push_char(&mut time, ' ');
            let f = format_time_str(slot.start_time.as_str(), time_12h);
            push_str(&mut time, f.as_str());
            Some((time, detail, field_name))
        },
    }
}

pub open spec fn rows_view(rows: Seq<(String, String, String)>) -> Seq<(Seq<char>, Seq<char>, Seq<char>)> {
    Seq::new(rows.len(), |i: int| (rows[i].0@, rows[i].1@, rows[i].2@))
}

/// The organisation shown on a card: nothing when it is blank.
pub open spec fn card_org(org: Seq<char>) -> Seq<char> {
    if trimmed(org).len() == 0 {
        Seq::empty()
    } else {
        ascii_only(org)
    }
}

/// Collects and sorts one team's assignments into a printable card.
pub fn prepare_team_card(config: &TournamentConfig, team: &Team, assignments: &[ScheduleAssignment], time_12h: bool) -> (r: TeamCard)
    requires
        config.slot_times_fit(),
    ensures
        r.name@ == ascii_only(team.name@),
        r.org@ == card_org(team.organization@),
        rows_view(r.rows@) == card_rows(
            *config,
            team.name@,
            by_clock(*config, select(assignments@, for_team(team.name@))),
            time_12h,
        ),
{
    let idx = team_positions(assignments, team.name.as_str());
    let n = assignments.len();
    proof {
        lemma_positions_bounded(assignments@, for_team(team.name@));
    }
    let order = order_by_clock(config, assignments, &idx);
    let ghost items = permuted(assignments@, order@);
    let mut rows: Vec<(String, String, String)> = Vec::new();
    let mut k: usize = 0;
    while k < order.len()
        invariant
            k <= order@.len(),
            forall|a: int| 0 <= a < order@.len() ==> #[trigger] order@[a] < assignments@.len(),
            items == permuted(assignments@, order@),
            rows_view(rows@) == card_rows(*config, team.name@, items.take(k as int), time_12h),
        decreases order.len() - k,
    {
        let assign = &assignments[order[k]];
        proof {
            assert(items.take(k + 1).drop_last() == items.take(k as int));
            assert(items.take(k + 1).last() == *assign);
        }
        match card_row_text(config, team, assign, time_12h) {
            None => {},
            Some(row) => {
                let ghost before = rows_view(rows@);
                rows.push(row);
                assert(rows_view(rows@) =~= before.push((rows@.last().0@, rows@.last().1@, rows@.last().2@)));
            },
        }
        k = k + 1;
    }
    assert(items.take(order@.len() as int) =~= items);
    let org_trim = trim(team.organization.as_str());
    let org = if org_trim.as_str().is_empty() {
        String::new()
    } else {
        clean_text(team.organization.as_str())
    };
    TeamCard { name: clean_text(team.name.as_str()), org, rows }
}

// ---------------------------------------------------------------------------
// Volunteer rosters
// ---------------------------------------------------------------------------

pub open spec fn roster_header() -> Seq<char> {
    "Volunteer,Time,Day,Field,Activity,Division\n"@
}

/// The roster row for one assignment, `None` when its slot is unknown.
pub open spec fn roster_row(config: TournamentConfig, vol_name: Seq<char>, a: ScheduleAssignment, t12: bool) -> Option<Seq<char>> {
    match find_first(config.time_slots@, slot_has_id(a.time_slot_id@)) {
        Some(s) => Some(
            quoted(vol_name) + seq![','] + quoted(spec_format_time_str(s.start_time@, t12)) + seq![',']
                + quoted(s.day@) + seq![','] + quoted(field_name_of(config, a)) + seq![',']
                + quoted(a.activity.spec_export_label()) + seq![','] + quoted(
                division_name_of(config, a.activity),
            ) + seq!['\n'],
        ),
        None => None,
    }
}

/// The roster rows of one volunteer for `items` (assignments whose slot is
/// unknown are left out).
pub open spec fn roster_rows(config: TournamentConfig, vol_name: Seq<char>, items: Seq<ScheduleAssignment>, t12: bool) -> Seq<char>
    decreases items.len(),
{
    if items.len() == 0 {
        Seq::empty()
    } else {
        let prev = roster_rows(config, vol_name, items.drop_last(), t12);
        match roster_row(config, vol_name, items.last(), t12) {
            Some(row) => prev + row,
            None => prev,
        }
    }
}

/// One roster row, `None` when the assignment's slot is unknown.
fn roster_row_text(config: &TournamentConfig, vol: &Volunteer, assign: &ScheduleAssignment, time_12h: bool) -> (r: Option<String>)
    ensures
        match roster_row(*config, vol.name@, *assign, time_12h) {
            Some(row) => r matches Some(t) && t@ == row,
            None => r is None,
        },
{
    match find_slot(&config.time_slots, assign.time_slot_id.as_str()) {
        None => None,
        Some(si) => {
            let slot = &config.time_slots[si];
            let time = format_time_str(slot.start_time.as_str(), time_12h);
            let field = assignment_field_name(config, assign);
            let label = assign.activity.export_label();
            let div = activity_division_name(config, &assign.activity);
            let mut out = String::new();
            push_quoted(&mut out, vol.name.as_str());
            push_char(&mut out, ',');
            push_quoted(&mut out, time.as_str());
            push_char(&mut out, ',');
            push_quoted(&mut out, slot.day.as_str());
            push_char(&mut out, ',');
            push_quoted(&mut out, field.as_str());
            push_char(&mut out, ',');
            push_quoted(&mut out, label.as_str());
            push_char(&mut out, ',');
            push_quoted(&mut out, div.as_str());
            push_char(&mut out, '\n');
            Some(out)
        },
    }
}

/// The order of names: character by character.
pub open spec fn name_order() -> spec_fn(Seq<char>, Seq<char>) -> bool {
    |a: Seq<char>, b: Seq<char>| a == b || crate::sorting::chars_lt(a, b)
}

pub open spec fn volunteer_names(vols: Seq<Volunteer>) -> Seq<Seq<char>> {
    Seq::new(vols.len(), |i: int| vols[i].name@)
}

/// All rosters: for each volunteer in order, that volunteer's rows.
pub open spec fn all_roster_rows(config: TournamentConfig, vols: Seq<Volunteer>, assignments: Seq<ScheduleAssignment>, t12: bool) -> Seq<char>
    decreases vols.len(),
{
    if vols.len() == 0 {
        Seq::empty()
    } else {
        let v = vols.last();
        all_roster_rows(config, vols.drop_last(), assignments, t12) + roster_rows(
            config,
            v.name@,
            by_clock(config, select(assignments, for_volunteer(v.id@))),
            t12,
        )
    }
}

/// One volunteer's roster rows.
fn volunteer_roster(config: &TournamentConfig, vol: &Volunteer, assignments: &[ScheduleAssignment], time_12h: bool) -> (r: String)
    requires
        config.slot_times_fit(),
    ensures
        r@ == roster_rows(*config, vol.name@, by_clock(*config, select(assignments@, for_volunteer(vol.id@))), time_12h),
{
    let idx = volunteer_positions(assignments, vol.id.as_str());
    let n = assignments.len();
    proof {
        lemma_positions_bounded(assignments@, for_volunteer(vol.id@));
    }
    let order = order_by_clock(config, assignments, &idx);
    let ghost items = permuted(assignments@, order@);
    let mut out = String::new();
    let mut k: usize = 0;
    while k < order.len()
        invariant
            k <= order@.len(),
            forall|a: int| 0 <= a < order@.len() ==> #[trigger] order@[a] < assignments@.len(),
            items == permuted(assignments@, order@),
            out@ == roster_rows(*config, vol.name@, items.take(k as int), time_12h),
        decreases order.len() - k,
    {
        let assign = &assignments[order[k]];
        proof {
            assert(items.take(k + 1).drop_last() == items.take(k as int));
            assert(items.take(k + 1).last() == *assign);
        }
        match roster_row_text(config, vol, assign, time_12h) {
            None => {},
            Some(row) => {
                push_str(&mut out, row.as_str());
            },
        }
        k = k + 1;
    }
    assert(items.take(order@.len() as int) =~= items);
    out
}

/// Every volunteer's roster as CSV: volunteers ordered by name, each one's
/// assignments ordered by slot day and start time.
pub fn volunteer_rosters_csv(config: &TournamentConfig, assignments: &[ScheduleAssignment], time_12h: bool) -> (r: String)
    requires
        config.slot_times_fit(),
    ensures
        r@ == roster_header() + all_roster_rows(
            *config,
            sorted_by(config.volunteers@, volunteer_names(config.volunteers@), name_order()),
            assignments@,
            time_12h,
        ),
{
    let ghost vols = config.volunteers@;
    let ghost views = volunteer_names(vols);
    let mut keys: Vec<String> = Vec::new();
    let mut i: usize = 0;
    while i < config.volunteers.len()
        invariant
            i <= vols.len(),
            vols == config.volunteers@,
            views == volunteer_names(vols),
            keys@.len() == i,
            forall|k: int| 0 <= k < i ==> (#[trigger] keys@[k])@ == views[k],
        decreases config.volunteers.len() - i,
    {
        keys.push(config.volunteers[i].name.clone());
        i = i + 1;
    }
    let perm = stable_order(&keys);
    proof {
        lemma_stable_order_transfer(keys@, views, name_order(), perm@);
        lemma_stable_order_of(views, name_order(), perm@);
    }
    let ghost sorted = permuted(vols, perm@);
    let mut out = String::new();
    push_str(&mut out, "Volunteer,Time,Day,Field,Activity,Division\n");
    let mut k: usize = 0;
    while k < perm.len()
        invariant
            k <= perm@.len(),
            perm@.len() == vols.len(),
            vols == config.volunteers@,
            config.slot_times_fit(),
            forall|a: int| 0 <= a < perm@.len() ==> #[trigger] perm@[a] < vols.len(),
            sorted == permuted(vols, perm@),
            out@ == roster_header() + all_roster_rows(*config, sorted.take(k as int), assignments@, time_12h),
        decreases perm.len() - k,
    {
        let vol = &config.volunteers[perm[k]];
        let part = volunteer_roster(config, vol, assignments, time_12h);
        push_str(&mut out, part.as_str());
        proof {
            assert(sorted.take(k + 1).drop_last() == sorted.take(k as int));
            assert(sorted.take(k + 1).last() == *vol);
        }
        k = k + 1;
    }
    assert(sorted.take(perm@.len() as int) =~= sorted);
    out
}

} // verus!
