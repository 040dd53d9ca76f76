//! What a printed schedule report holds: the summary figures in its masthead,
//! the rows of its competition and interview sections, and the teams that get
//! a personal card. Laying these out on pages is left to the caller.
use vstd::prelude::*;
use crate::export::{ascii_only, clean_text, day_abbr, format_time_str, spec_day_abbr, spec_format_time_str};
use crate::helpers::parse_time_to_minutes;
use crate::lookup::{contains_string, find_field, find_first, find_slot, slot_has_id};
use crate::model::{Activity, ScheduleAssignment, Team, TournamentConfig};
use crate::reports::{
    activity_involves_team, by_clock, card_field, card_org, card_rows, clock_key, for_team,
    get_activity_metadata, involves_team, name_order, positions_where, prepare_team_card, rows_view,
    select, spec_activity_metadata, TeamCard,
};
use crate::sorting::{
    day_time_le, day_time_view, lemma_stable_order_of, lemma_stable_order_transfer, opt_text_le,
    opt_text_view, permuted, sorted_by, stable_order,
};
use crate::text::{push_char, push_str, same_text, string_from};

verus! {

broadcast use {vstd::string::group_string_axioms, vstd::seq_lib::group_seq_properties, vstd::set::group_set_axioms};

// ---------------------------------------------------------------------------
// Masthead figures
// ---------------------------------------------------------------------------

/// The round index of each assignment, in order.
pub open spec fn rounds_of(items: Seq<ScheduleAssignment>) -> Seq<int> {
    items.map_values(|a: ScheduleAssignment| a.activity.spec_round_index())
}

/// The field id of each assignment that has one, in order.
pub open spec fn fields_of(items: Seq<ScheduleAssignment>) -> Seq<Seq<char>>
    decreases items.len(),
{
    if items.len() == 0 {
        Seq::empty()
    } else {
        let prev = fields_of(items.drop_last());
        match items.last().field_id {
            Some(f) => prev.push(f@),
            None => prev,
        }
    }
}

/// The figures printed at the top of a report.
pub struct ReportSummary {
    /// Distinct round indices among the activities.
    pub rounds: usize,
    /// Distinct fields the activities are played on.
    pub fields: usize,
    /// Activities listed.
    pub activities: usize,
}

/// Every activity's round index fits in `usize`.
pub open spec fn rounds_fit(items: Seq<ScheduleAssignment>) -> bool {
    forall|i: int| 0 <= i < items.len() ==> (#[trigger] items[i]).activity.round_index_fits()
}

proof fn lemma_push_to_set<A>(s: Seq<A>, x: A)
    ensures
        s.push(x).to_set() == s.to_set().insert(x),
{
    assert forall|z: A| s.push(x).to_set().contains(z) == s.to_set().insert(x).contains(z) by {
        if s.push(x).contains(z) && z != x {
            let k = choose|k: int| 0 <= k < s.push(x).len() && s.push(x)[k] == z;
            assert(k < s.len());
            assert(s[k] == z);
        }
        if s.contains(z) {
            let k = choose|k: int| 0 <= k < s.len() && s[k] == z;
            assert(s.push(x)[k] == z);
        }
        if z == x {
            assert(s.push(x)[s.len() as int] == x);
        }
    }
    assert(s.push(x).to_set() =~= s.to_set().insert(x));
}

/// Whether every activity's round index fits in `usize`.
pub fn rounds_in_range(assignments: &[ScheduleAssignment]) -> (r: bool)
    ensures
        r == rounds_fit(assignments@),
{
    let mut i: usize = 0;
    while i < assignments.len()
        invariant
            i <= assignments@.len(),
            forall|j: int| 0 <= j < i ==> (#[trigger] assignments@[j]).activity.round_index_fits(),
        decreases assignments.len() - i,
    {
        if !assignments[i].activity.round_index_in_range() {
            return false;
        }
        i = i + 1;
    }
    true
}

fn contains_index(list: &Vec<usize>, v: usize) -> (r: bool)
    ensures
        r == list@.contains(v),
{
    let mut i: usize = 0;
    while i < list.len()
        invariant
            i <= list@.len(),
            forall|j: int| 0 <= j < i ==> list@[j] != v,
        decreases list.len() - i,
    {
        if list[i] == v {
            return true;
        }
        i = i + 1;
    }
    false
}

pub open spec fn as_ints(v: Seq<usize>) -> Seq<int> {
    v.map_values(|x: usize| x as int)
}

pub open spec fn as_texts(v: Seq<String>) -> Seq<Seq<char>> {
    v.map_values(|x: String| x@)
}

/// How many distinct round indices the assignments have.
fn count_rounds(assignments: &[ScheduleAssignment]) -> (r: usize)
    requires
        rounds_fit(assignments@),
    ensures
        r == rounds_of(assignments@).to_set().len(),
        r <= assignments@.len(),
{
    let ghost items = assignments@;
    let mut seen: Vec<usize> = Vec::new();
    let mut i: usize = 0;
    while i < assignments.len()
        invariant
            i <= items.len(),
            items == assignments@,
            rounds_fit(items),
            as_ints(seen@).no_duplicates(),
            as_ints(seen@).to_set() == rounds_of(items.take(i as int)).to_set(),
            seen@.len() <= i,
        decreases assignments.len() - i,
    {
        let act = &assignments[i].activity;
        assert(items[i as int].activity.round_index_fits());
        let v = act.round_index();
        assert(rounds_of(items.take(i + 1)) =~= rounds_of(items.take(i as int)).push(v as int));
        if !contains_index(&seen, v) {
            let ghost before = as_ints(seen@);
            assert(!before.contains(v as int)) by {
                if before.contains(v as int) {
                    let k = choose|k: int| 0 <= k < before.len() && before[k] == v as int;
                    assert(seen@[k] == v);
                }
            }
            seen.push(v);
            assert(as_ints(seen@) =~= before.push(v as int));
            proof {
                lemma_push_to_set(before, v as int);
                lemma_push_to_set(rounds_of(items.take(i as int)), v as int);
            }
        } else {
            let ghost k = choose|k: int| 0 <= k < seen@.len() && seen@[k] == v;
            assert(as_ints(seen@)[k] == v as int);
            proof {
                lemma_push_to_set(rounds_of(items.take(i as int)), v as int);
                assert(as_ints(seen@).to_set().contains(v as int));
                assert(as_ints(seen@).to_set().insert(v as int) =~= as_ints(seen@).to_set());
            }
        }
        i = i + 1;
    }
    assert(items.take(items.len() as int) =~= items);
    proof {
        as_ints(seen@).unique_seq_to_set();
    }
    seen.len()
}

/// How many distinct field ids the assignments have.
fn count_fields(assignments: &[ScheduleAssignment]) -> (r: usize)
    ensures
        r == fields_of(assignments@).to_set().len(),
        r <= assignments@.len(),
{
    let ghost items = assignments@;
    let mut seen: Vec<String> = Vec::new();
    let mut i: usize = 0;
    while i < assignments.len()
        invariant
            i <= items.len(),
            items == assignments@,
            as_texts(seen@).no_duplicates(),
            as_texts(seen@).to_set() == fields_of(items.take(i as int)).to_set(),
            seen@.len() <= i,
        decreases assignments.len() - i,
    {
        let ghost t = items.take(i + 1);
        assert(t.drop_last() =~= items.take(i as int));
        assert(t.last() == items[i as int]);
        match &assignments[i].field_id {
            Some(f) => {
                assert(fields_of(t) == fields_of(items.take(i as int)).push(f@));
                if !contains_string(&seen, f.as_str()) {
                    let ghost before = as_texts(seen@);
                    assert(!before.contains(f@)) by {
                        if before.contains(f@) {
                            let k = choose|k: int| 0 <= k < before.len() && before[k] == f@;
                            assert(seen@[k]@ == f@);
                        }
                    }
                    seen.push(f.clone());
                    assert(as_texts(seen@) =~= before.push(f@));
                    proof {
                        lemma_push_to_set(before, f@);
                        lemma_push_to_set(fields_of(items.take(i as int)), f@);
                    }
                } else {
                    let ghost k = choose|k: int| 0 <= k < seen@.len() && (#[trigger] seen@[k])@ == f@;
                    assert(as_texts(seen@)[k] == f@);
                    proof {
                        lemma_push_to_set(fields_of(items.take(i as int)), f@);
                        assert(as_texts(seen@).to_set().contains(f@));
                        assert(as_texts(seen@).to_set().insert(f@) =~= as_texts(seen@).to_set());
                    }
                }
            },
            None => {
                assert(fields_of(t) == fields_of(items.take(i as int)));
            },
        }
        i = i + 1;
    }
    assert(items.take(items.len() as int) =~= items);
    proof {
        as_texts(seen@).unique_seq_to_set();
    }
    seen.len()
}

/// The masthead figures of a report on these assignments.
pub fn report_summary(assignments: &[ScheduleAssignment]) -> (r: ReportSummary)
    requires
        rounds_fit(assignments@),
    ensures
        r.rounds == rounds_of(assignments@).to_set().len(),
        r.fields == fields_of(assignments@).to_set().len(),
        r.activities == assignments@.len(),
        r.rounds <= r.activities,
        r.fields <= r.activities,
{
    ReportSummary {
        rounds: count_rounds(assignments),
        fields: count_fields(assignments),
        activities: assignments.len(),
    }
}

// ---------------------------------------------------------------------------
// Schedule sections
// ---------------------------------------------------------------------------

/// The competition section lists everything but interviews; the interview
/// section lists the interviews.
pub open spec fn in_section(interviews: bool) -> spec_fn(ScheduleAssignment) -> bool {
    |a: ScheduleAssignment| (a.activity is Interview) == interviews
}

/// Positions of the assignments belonging to a section, in order.
pub fn section_positions(assignments: &[ScheduleAssignment], interviews: bool) -> (r: Vec<usize>)
    ensures
        r@ == positions_where(assignments@, in_section(interviews)),
{
    let ghost p = in_section(interviews);
    let mut out: Vec<usize> = Vec::new();
    let mut i: usize = 0;
    while i < assignments.len()
        invariant
            i <= assignments@.len(),
            p == in_section(interviews),
            out@ == positions_where(assignments@.take(i as int), p),
        decreases assignments.len() - i,
    {
        let ghost t = assignments@.take(i + 1);
        assert(t.drop_last() == assignments@.take(i as int));
        assert(t.last() == assignments@[i as int]);
        let is_interview = matches!(assignments[i].activity, Activity::Interview { .. });
        if is_interview == interviews {
            out.push(i);
        }
        i = i + 1;
    }
    assert(assignments@.take(assignments@.len() as int) =~= assignments@);
    out
}

/// Every assignment belongs to exactly one of the two sections: the
/// competition section's and the interview section's assignments together
/// are as many as all of them.
pub proof fn lemma_sections_split(items: Seq<ScheduleAssignment>)
    ensures
        positions_where(items, in_section(false)).len() + positions_where(items, in_section(true)).len() == items.len(),
        forall|i: int| 0 <= i < items.len() ==> (in_section(false)(#[trigger] items[i]) != in_section(true)(items[i])),
    decreases items.len(),
{
    if items.len() > 0 {
        lemma_sections_split(items.drop_last());
    }
}

/// Sort key of a section row: the slot's day and start minute (`None` when
/// the slot is unknown), then the field id (`None` when there is none).
pub open spec fn section_key(config: TournamentConfig, a: ScheduleAssignment) -> (Option<(Seq<char>, nat)>, Option<Seq<char>>) {
    (clock_key(config, a), opt_text_view(a.field_id))
}

pub open spec fn section_keys(config: TournamentConfig, items: Seq<ScheduleAssignment>) -> Seq<(Option<(Seq<char>, nat)>, Option<Seq<char>>)> {
    Seq::new(items.len(), |i: int| section_key(config, items[i]))
}

/// Day and time first; the field decides between equal times.
pub open spec fn section_le(x: (Option<(Seq<char>, nat)>, Option<Seq<char>>), y: (Option<(Seq<char>, nat)>, Option<Seq<char>>)) -> bool {
    day_time_le(x.0, y.0) && (!day_time_le(y.0, x.0) || opt_text_le(x.1, y.1))
}

pub open spec fn section_order() -> spec_fn((Option<(Seq<char>, nat)>, Option<Seq<char>>), (Option<(Seq<char>, nat)>, Option<Seq<char>>)) -> bool {
    |x: (Option<(Seq<char>, nat)>, Option<Seq<char>>), y: (Option<(Seq<char>, nat)>, Option<Seq<char>>)| section_le(x, y)
}

/// `items` ordered by day, start time and field, ties in their given order.
pub open spec fn by_section(config: TournamentConfig, items: Seq<ScheduleAssignment>) -> Seq<ScheduleAssignment> {
    sorted_by(items, section_keys(config, items), section_order())
}

pub open spec fn section_key_view(k: (Option<(String, u32)>, Option<String>)) -> (Option<(Seq<char>, nat)>, Option<Seq<char>>) {
    (day_time_view(k.0), opt_text_view(k.1))
}

/// The positions `idx` of `assignments`, reordered by day, start time and
/// field (stable).
fn order_for_section(config: &TournamentConfig, assignments: &[ScheduleAssignment], idx: &Vec<usize>) -> (r: Vec<usize>)
    requires
        config.slot_times_fit(),
        forall|k: int| 0 <= k < idx@.len() ==> #[trigger] idx@[k] < assignments@.len(),
    ensures
        forall|k: int| 0 <= k < r@.len() ==> #[trigger] r@[k] < assignments@.len(),
        permuted(assignments@, r@) == by_section(*config, permuted(assignments@, idx@)),
{
    let ghost items = permuted(assignments@, idx@);
    let ghost views = section_keys(*config, items);
    let mut keys: Vec<(Option<(String, u32)>, Option<String>)> = Vec::new();
    let mut i: usize = 0;
    while i < idx.len()
        invariant
            i <= idx@.len(),
            config.slot_times_fit(),
            forall|k: int| 0 <= k < idx@.len() ==> #[trigger] idx@[k] < assignments@.len(),
            items == permuted(assignments@, idx@),
            views == section_keys(*config, items),
            keys@.len() == i,
            forall|k: int| 0 <= k < i ==> section_key_view(#[trigger] keys@[k]) == views[k],
        decreases idx.len() - i,
    {
        let a = &assignments[idx[i]];
        let clock = match find_slot(&config.time_slots, a.time_slot_id.as_str()) {
            Some(j) => {
                let slot = &config.time_slots[j];
                assert(slot.times_fit());
                let m = parse_time_to_minutes(slot.start_time.as_str());
                Some((slot.day.clone(), m))
            },
            None => None,
        };
        let field = match &a.field_id {
            Some(f) => Some(f.clone()),
            None => None,
        };
        keys.push((clock, field));
        i = i + 1;
    }
    let perm = stable_order(&keys);
    proof {
        lemma_stable_order_transfer(keys@, views, section_order(), perm@);
        lemma_stable_order_of(views, section_order(), perm@);
    }
    let mut out: Vec<usize> = Vec::new();
    let mut k: usize = 0;
    while k < perm.len()
        invariant
            k <= perm@.len(),
            perm@.len() == idx@.len(),
            forall|a: int| 0 <= a < perm@.len() ==> #[trigger] perm@[a] < idx@.len(),
            forall|a: int| 0 <= a < idx@.len() ==> #[trigger] idx@[a] < assignments@.len(),
            out@.len() == k,
            forall|a: int| 0 <= a < k ==> #[trigger] out@[a] == idx@[perm@[a] as int],
        decreases perm.len() - k,
    {
        out.push(idx[perm[k]]);
        k = k + 1;
    }
    assert(permuted(assignments@, out@) =~= permuted(items, perm@));
    out
}

/// One printed row of a schedule section.
pub struct SectionRow {
    /// Day abbreviation and start time.
    pub time: String,
    pub round: String,
    pub field: String,
    pub activity: String,
    /// Division and organisations.
    pub detail: String,
}

pub open spec fn row_view(r: SectionRow) -> (Seq<char>, Seq<char>, Seq<char>, Seq<char>, Seq<char>) {
    (r.time@, r.round@, r.field@, r.activity@, r.detail@)
}

pub open spec fn rows_of(rows: Seq<SectionRow>) -> Seq<(Seq<char>, Seq<char>, Seq<char>, Seq<char>, Seq<char>)> {
    Seq::new(rows.len(), |i: int| row_view(rows[i]))
}

/// The section row for one assignment, `None` when its slot is unknown.
pub open spec fn section_row(config: TournamentConfig, a: ScheduleAssignment, t12: bool) -> Option<(Seq<char>, Seq<char>, Seq<char>, Seq<char>, Seq<char>)> {
    match find_first(config.time_slots@, slot_has_id(a.time_slot_id@)) {
        Some(s) => Some(
            (
                spec_day_abbr(s.day@) + seq![' '] + spec_format_time_str(s.start_time@, t12),
                a.activity.spec_round_label(),
                card_field(config, a),
                ascii_only(a.activity.spec_export_label()),
                ascii_only(spec_activity_metadata(config, a.activity)),
            ),
        ),
        None => None,
    }
}

/// Rows of a section for `items` (assignments whose slot is unknown are left
/// out).
pub open spec fn section_rows(config: TournamentConfig, items: Seq<ScheduleAssignment>, t12: bool) -> Seq<(Seq<char>, Seq<char>, Seq<char>, Seq<char>, Seq<char>)>
    decreases items.len(),
{
    if items.len() == 0 {
        Seq::empty()
    } else {
        let prev = section_rows(config, items.drop_last(), t12);
        match section_row(config, items.last(), t12) {
            Some(row) => prev.push(row),
            None => prev,
        }
    }
}

fn section_row_text(config: &TournamentConfig, assign: &ScheduleAssignment, time_12h: bool) -> (r: Option<SectionRow>)
    requires
        assign.activity.round_index_fits(),
    ensures
        match section_row(*config, *assign, time_12h) {
            Some(row) => r matches Some(t) && row_view(t) == row,
            None => r is None,
        },
{
    match find_slot(&config.time_slots, assign.time_slot_id.as_str()) {
        None => None,
        Some(si) => {
            let slot = &config.time_slots[si];
            let field = match &assign.field_id {
                Some(fid) => match find_field(&config.fields, fid.as_str()) {
                    Some(fi) => clean_text(config.fields[fi].name.as_str()),
                    None => string_from("-"),
                },
                None => string_from("-"),
            };
            let mut time = String::new();
            push_str(&mut time, day_abbr(slot.day.as_str()).as_str());
            push_char(&mut time, ' ');
            let t = format_time_str(slot.start_time.as_str(), time_12h);
            push_str(&mut time, t.as_str());
            let label = assign.activity.export_label();
            let meta = get_activity_metadata(config, &assign.activity);
            Some(SectionRow {
                time,
                round: assign.activity.round_label(),
                field,
                activity: clean_text(label.as_str()),
                detail: clean_text(meta.as_str()),
            })
        },
    }
}

/// The rows of the competition section (`interviews` false) or the interview
/// section (`interviews` true) of a report: the section's assignments ordered
/// by day, start time and field.
pub fn schedule_section_rows(config: &TournamentConfig, assignments: &[ScheduleAssignment], interviews: bool, time_12h: bool) -> (r: Vec<SectionRow>)
    requires
        config.slot_times_fit(),
        rounds_fit(assignments@),
    ensures
        rows_of(r@) == section_rows(
            *config,
            by_section(*config, select(assignments@, in_section(interviews))),
            time_12h,
        ),
{
    let idx = section_positions(assignments, interviews);
    let n = assignments.len();
    proof {
        crate::reports::lemma_positions_bounded(assignments@, in_section(interviews));
    }
    let order = order_for_section(config, assignments, &idx);
    let ghost items = permuted(assignments@, order@);
    let mut rows: Vec<SectionRow> = Vec::new();
    let mut k: usize = 0;
    while k < order.len()
        invariant
            k <= order@.len(),
            rounds_fit(assignments@),
            forall|a: int| 0 <= a < order@.len() ==> #[trigger] order@[a] < assignments@.len(),
            items == permuted(assignments@, order@),
            rows_of(rows@) == section_rows(*config, items.take(k as int), time_12h),
        decreases order.len() - k,
    {
        let assign = &assignments[order[k]];
        proof {
            assert(items.take(k + 1).drop_last() == items.take(k as int));
            assert(items.take(k + 1).last() == *assign);
            assert(assignments@[order@[k as int] as int].activity.round_index_fits());
        }
        match section_row_text(config, assign, time_12h) {
            None => {},
            Some(row) => {
                let ghost before = rows_of(rows@);
                rows.push(row);
                assert(rows_of(rows@) =~= before.push(row_view(rows@.last())));
            },
        }
        k = k + 1;
    }
    assert(items.take(order@.len() as int) =~= items);
    rows
}

// ---------------------------------------------------------------------------
// Team cards
// ---------------------------------------------------------------------------

/// Which report is printed: the whole schedule, one division's, one team's
/// or one volunteer's.
#[derive(PartialEq, Eq, Debug, Clone, Copy, Structural)]
pub enum ReportType {
    Master,
    Division,
    Team,
    Volunteer,
}

/// The positions of `teams` satisfying `p`, in order.
pub open spec fn team_spots(teams: Seq<Team>, p: spec_fn(Team) -> bool) -> Seq<usize>
    decreases teams.len(),
{
    if teams.len() == 0 {
        Seq::empty()
    } else if p(teams.last()) {
        team_spots(teams.drop_last(), p).push((teams.len() - 1) as usize)
    } else {
        team_spots(teams.drop_last(), p)
    }
}

/// The teams satisfying `p`, in order.
pub open spec fn teams_where(teams: Seq<Team>, p: spec_fn(Team) -> bool) -> Seq<Team> {
    permuted(teams, team_spots(teams, p))
}

proof fn lemma_team_spots_bounded(teams: Seq<Team>, p: spec_fn(Team) -> bool)
    requires
        teams.len() <= usize::MAX,
    ensures
        forall|k: int| 0 <= k < team_spots(teams, p).len() ==> #[trigger] team_spots(teams, p)[k] < teams.len(),
    decreases teams.len(),
{
    if teams.len() > 0 {
        lemma_team_spots_bounded(teams.drop_last(), p);
        let prev = team_spots(teams.drop_last(), p);
        let cur = team_spots(teams, p);
        assert forall|k: int| 0 <= k < cur.len() implies #[trigger] cur[k] < teams.len() by {
            if p(teams.last()) && k == prev.len() {
                assert(cur[k] == teams.len() - 1);
            } else {
                assert(cur[k] == prev[k]);
            }
        }
    }
}

/// A team that plays, runs or is interviewed somewhere in `items`.
pub open spec fn scheduled_in(items: Seq<ScheduleAssignment>) -> spec_fn(Team) -> bool {
    |t: Team| exists|i: int| 0 <= i < items.len() && involves_team(#[trigger] items[i], t.name@)
}

/// A team of the division of the first of `items` (none when `items` is
/// empty).
pub open spec fn in_first_division(items: Seq<ScheduleAssignment>) -> spec_fn(Team) -> bool {
    |t: Team| items.len() > 0 && t.division_id@ == items[0].activity.spec_division_id()
}

pub open spec fn team_names(teams: Seq<Team>) -> Seq<Seq<char>> {
    Seq::new(teams.len(), |i: int| teams[i].name@)
}

/// The teams that get a card in a report on `items`: for a division report
/// the division's teams in configuration order; for the master report every
/// team that appears in the schedule, ordered by name; none for a team's or
/// a volunteer's own report.
pub open spec fn report_teams(config: TournamentConfig, items: Seq<ScheduleAssignment>, kind: ReportType) -> Seq<Team> {
    match kind {
        ReportType::Division => teams_where(config.teams@, in_first_division(items)),
        ReportType::Master => {
            let named = teams_where(config.teams@, scheduled_in(items));
            sorted_by(named, team_names(named), name_order())
        },
        _ => Seq::empty(),
    }
}

pub open spec fn card_view(c: TeamCard) -> (Seq<char>, Seq<char>, Seq<(Seq<char>, Seq<char>, Seq<char>)>) {
    (c.name@, c.org@, rows_view(c.rows@))
}

/// The card printed for `team`: its cleaned name, its organisation, and its
/// activities among `items` in day and time order.
pub open spec fn card_for(config: TournamentConfig, team: Team, items: Seq<ScheduleAssignment>, t12: bool) -> (Seq<char>, Seq<char>, Seq<(Seq<char>, Seq<char>, Seq<char>)>) {
    (
        ascii_only(team.name@),
        card_org(team.organization@),
        card_rows(config, team.name@, by_clock(config, select(items, for_team(team.name@))), t12),
    )
}

/// Whether the named team appears in any of the assignments.
fn appears_in(assignments: &[ScheduleAssignment], name: &str) -> (r: bool)
    ensures
        r == exists|i: int| 0 <= i < assignments@.len() && involves_team(#[trigger] assignments@[i], name@),
{
    let mut i: usize = 0;
    while i < assignments.len()
        invariant
            i <= assignments@.len(),
            forall|j: int| 0 <= j < i ==> !involves_team(#[trigger] assignments@[j], name@),
        decreases assignments.len() - i,
    {
        if activity_involves_team(&assignments[i], name) {
            return true;
        }
        i = i + 1;
    }
    false
}

/// Positions of the teams a report shows cards for, in the order shown.
fn report_team_spots(config: &TournamentConfig, assignments: &[ScheduleAssignment], kind: ReportType) -> (r: Vec<usize>)
    ensures
        forall|k: int| 0 <= k < r@.len() ==> #[trigger] r@[k] < config.teams@.len(),
        permuted(config.teams@, r@) == report_teams(*config, assignments@, kind),
{
    let ghost teams = config.teams@;
    let team_count = config.teams.len();
    match kind {
        ReportType::Division => {
            let ghost p = in_first_division(assignments@);
            let mut out: Vec<usize> = Vec::new();
            if assignments.len() > 0 {
                let div = assignments[0].activity.division_id();
                let mut i: usize = 0;
                while i < config.teams.len()
                    invariant
                        i <= teams.len(),
                        teams == config.teams@,
                        assignments@.len() > 0,
                        div@ == assignments@[0].activity.spec_division_id(),
                        p == in_first_division(assignments@),
                        out@ == team_spots(teams.take(i as int), p),
                    decreases config.teams.len() - i,
                {
                    let ghost t = teams.take(i + 1);
                    assert(t.drop_last() == teams.take(i as int));
                    assert(t.last() == teams[i as int]);
                    if same_text(config.teams[i].division_id.as_str(), div) {
                        out.push(i);
                    }
                    i = i + 1;
                }
                assert(teams.take(teams.len() as int) =~= teams);
            } else {
                assert forall|k: int| 0 <= k <= teams.len() implies team_spots(teams.take(k), p).len() == 0 by {
                    lemma_no_spots(teams.take(k), p);
                }
                assert(teams.take(teams.len() as int) =~= teams);
            }
            proof {
                lemma_team_spots_bounded(teams, p);
            }
            out
        },
        ReportType::Master => {
            let ghost p = scheduled_in(assignments@);
            let mut named: Vec<usize> = Vec::new();
            let mut i: usize = 0;
            while i < config.teams.len()
                invariant
                    i <= teams.len(),
                    teams == config.teams@,
                    p == scheduled_in(assignments@),
                    named@ == team_spots(teams.take(i as int), p),
                decreases config.teams.len() - i,
            {
                let ghost t = teams.take(i + 1);
                assert(t.drop_last() == teams.take(i as int));
                assert(t.last() == teams[i as int]);
                if appears_in(assignments, config.teams[i].name.as_str()) {
                    named.push(i);
                }
                i = i + 1;
            }
            assert(teams.take(teams.len() as int) =~= teams);
            proof {
                lemma_team_spots_bounded(teams, p);
            }
            let ghost chosen = teams_where(teams, p);
            let ghost views = team_names(chosen);
            let mut keys: Vec<String> = Vec::new();
            let mut j: usize = 0;
            while j < named.len()
                invariant
                    j <= named@.len(),
                    teams == config.teams@,
                    named@ == team_spots(teams, p),
                    forall|k: int| 0 <= k < named@.len() ==> #[trigger] named@[k] < teams.len(),
                    chosen == permuted(teams, named@),
                    views == team_names(chosen),
                    keys@.len() == j,
                    forall|k: int| 0 <= k < j ==> (#[trigger] keys@[k])@ == views[k],
                decreases named.len() - j,
            {
                keys.push(config.teams[named[j]].name.clone());
                j = j + 1;
            }
            let perm = stable_order(&keys);
            proof {
                lemma_stable_order_transfer(keys@, views, name_order(), perm@);
                lemma_stable_order_of(views, name_order(), perm@);
            }
            let mut out: Vec<usize> = Vec::new();
            let mut k: usize = 0;
            while k < perm.len()
                invariant
                    k <= perm@.len(),
                    perm@.len() == named@.len(),
                    forall|a: int| 0 <= a < perm@.len() ==> #[trigger] perm@[a] < named@.len(),
                    forall|a: int| 0 <= a < named@.len() ==> #[trigger] named@[a] < teams.len(),
                    teams == config.teams@,
                    out@.len() == k,
                    forall|a: int| 0 <= a < k ==> #[trigger] out@[a] == named@[perm@[a] as int],
                decreases perm.len() - k,
            {
                out.push(named[perm[k]]);
                k = k + 1;
            }
            assert(permuted(teams, out@) =~= permuted(chosen, perm@));
            out
        },
        _ => {
            let out: Vec<usize> = Vec::new();
            assert(permuted(teams, out@) =~= Seq::<Team>::empty());
            out
        },
    }
}

proof fn lemma_no_spots(teams: Seq<Team>, p: spec_fn(Team) -> bool)
    requires
        forall|i: int| 0 <= i < teams.len() ==> !p(#[trigger] teams[i]),
    ensures
        team_spots(teams, p).len() == 0,
    decreases teams.len(),
{
    if teams.len() > 0 {
        assert(!p(teams[teams.len() - 1]));
        lemma_no_spots(teams.drop_last(), p);
    }
}

/// The team cards of a report on these assignments, in the order printed.
pub fn report_team_cards(config: &TournamentConfig, assignments: &[ScheduleAssignment], kind: ReportType, time_12h: bool) -> (r: Vec<TeamCard>)
    requires
        config.slot_times_fit(),
    ensures
        r@.len() == report_teams(*config, assignments@, kind).len(),
        forall|k: int| 0 <= k < r@.len() ==> card_view(#[trigger] r@[k]) == card_for(
            *config,
            report_teams(*config, assignments@, kind)[k],
            assignments@,
            time_12h,
        ),
{
    let spots = report_team_spots(config, assignments, kind);
    let ghost shown = report_teams(*config, assignments@, kind);
    let mut cards: Vec<TeamCard> = Vec::new();
    let mut k: usize = 0;
    while k < spots.len()
        invariant
            k <= spots@.len(),
            config.slot_times_fit(),
            forall|a: int| 0 <= a < spots@.len() ==> #[trigger] spots@[a] < config.teams@.len(),
            permuted(config.teams@, spots@) == shown,
            shown == report_teams(*config, assignments@, kind),
            cards@.len() == k,
            forall|a: int| 0 <= a < k ==> card_view(#[trigger] cards@[a]) == card_for(*config, shown[a], assignments@, time_12h),
        decreases spots.len() - k,
    {
        let team = &config.teams[spots[k]];
        assert(shown[k as int] == *team);
        let card = prepare_team_card(config, team, assignments, time_12h);
        cards.push(card);
        k = k + 1;
    }
    cards
}

} // verus!
