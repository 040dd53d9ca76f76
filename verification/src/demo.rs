//! A ready-made soccer competition to try the workspace with.
use vstd::prelude::*;
use crate::helpers::{clock_text, spec_format_minutes};
use crate::model::{
    DayGenConfig, Division, Field, FieldKind, FinalsRounds, SchedulingMode, Team, TimeSlot, TournamentConfig,
    Volunteer,
};
use crate::text::{decimal, push_char, push_decimal, push_decimal2, string_from};
use crate::generation::string_views;

verus! {

broadcast use vstd::string::group_string_axioms;

/// `sat_slot_<k>`.
pub open spec fn demo_slot_id(k: nat) -> Seq<char> {
    "sat_slot_"@ + decimal(k)
}

/// The ids `sat_slot_<from>` to `sat_slot_<to>`.
pub open spec fn demo_slot_ids(from: nat, to: nat) -> Seq<Seq<char>> {
    Seq::new((to + 1 - from) as nat, |k: int| demo_slot_id((from + k) as nat))
}

/// The demo's slots: twelve 20-minute slots on Saturday from 09:00, five
/// minutes apart.
pub open spec fn demo_slot_ok(s: TimeSlot, i: int) -> bool {
    &&& s.id@ == demo_slot_id((i + 1) as nat)
    &&& s.day@ == "Saturday"@
    &&& s.start_time@ == spec_format_minutes((540 + 25 * i) as nat)
    &&& s.end_time@ == spec_format_minutes((560 + 25 * i) as nat)
    &&& s.kind == FieldKind::Competition
}

fn slot_ids(from: u64, to: u64) -> (r: Vec<String>)
    requires
        1 <= from <= to <= 12,
    ensures
        string_views(r@) == demo_slot_ids(from as nat, to as nat),
{
    let mut r: Vec<String> = Vec::new();
    let mut k: u64 = from;
    while k <= to
        invariant
            1 <= from <= k <= to + 1,
            to <= 12,
            string_views(r@) == demo_slot_ids(from as nat, (k - 1) as nat),
        decreases to + 1 - k,
    {
        let mut id = string_from("sat_slot_");
        push_decimal(&mut id, k);
        let ghost before = r@;
        let ghost idv = id@;
        r.push(id);
        proof {
            assert(string_views(before).len() == before.len());
            assert(demo_slot_ids(from as nat, (k - 1) as nat).len() == k - from);
            assert(before.len() == k - from);
            assert(r@[before.len() as int]@ == idv);
            assert(idv == demo_slot_id(k as nat));
            assert forall|q: int| 0 <= q < r@.len() implies string_views(r@)[q] == demo_slot_ids(from as nat, k as nat)[q] by {
                if q < before.len() {
                    assert(string_views(before)[q] == demo_slot_ids(from as nat, (k - 1) as nat)[q]);
                }
            }
            assert(string_views(r@) =~= demo_slot_ids(from as nat, k as nat));
        }
        k = k + 1;
    }
    r
}

fn demo_division(
    id: &str,
    name: &str,
    volunteers: usize,
    interviews: bool,
    interview_minutes: u32,
    finals: bool,
    color: [u8; 3],
) -> (d: Division)
    ensures
        d.id@ == id@,
        d.name@ == name@,
        d.mode == SchedulingMode::HeadToHead,
        d.games_per_team == 3,
        d.volunteers_required == volunteers,
        d.duration_minutes == 20,
        d.interviews_enabled == interviews,
        d.interview_volunteers_required == volunteers,
        d.interview_duration_minutes == interview_minutes,
        d.finals_enabled == finals,
        d.finals_rounds == (if finals { Some(FinalsRounds::Grand) } else { None }),
        d.finals_duration_minutes == (if finals { Some(25u32) } else { None }),
        !d.finals_third_place_playoff,
        d.color == Some(color),
        d.allowed_fields is None,
        d.min_match_break_minutes is None,
{
    Division {
        id: string_from(id),
        name: string_from(name),
        mode: SchedulingMode::HeadToHead,
        games_per_team: 3,
        volunteers_required: volunteers,
        duration_minutes: 20,
        allowed_fields: None,
        interviews_enabled: interviews,
        interview_volunteers_required: volunteers,
        interview_duration_minutes: interview_minutes,
        finals_enabled: finals,
        finals_rounds: if finals {
            Some(FinalsRounds::Grand)
        } else {
            None
        },
        finals_duration_minutes: if finals {
            Some(25)
        } else {
            None
        },
        finals_third_place_playoff: false,
        color: Some(color),
        min_match_break_minutes: None,
    }
}

fn demo_team(name: &str, division: &str, org: &str) -> (t: Team)
    ensures
        t.name@ == name@,
        t.division_id@ == division@,
        t.organization@ == org@,
{
    Team { name: string_from(name), division_id: string_from(division), organization: string_from(org) }
}

fn demo_field(id: &str, name: &str, kind: FieldKind) -> (f: Field)
    ensures
        f.id@ == id@,
        f.name@ == name@,
        f.kind == kind,
        f.allowed_divisions is None,
{
    Field { id: string_from(id), name: string_from(name), kind, allowed_divisions: None }
}

fn demo_volunteer(id: &str, name: &str, from: u64, to: u64, caps: Option<Vec<String>>, conflicts: Vec<String>) -> (v: Volunteer)
    requires
        1 <= from <= to <= 12,
    ensures
        v.id@ == id@,
        v.name@ == name@,
        string_views(v.availabilities@) == demo_slot_ids(from as nat, to as nat),
        v.capabilities == caps,
        v.conflict_organizations == conflicts,
        v.attendance_status@.len() == 0,
        v.locked_field_ids is None,
{
    Volunteer {
        id: string_from(id),
        name: string_from(name),
        availabilities: slot_ids(from, to),
        capabilities: caps,
        conflict_organizations: conflicts,
        attendance_status: Vec::new(),
        locked_field_ids: None,
    }
}

fn strings2(a: &str, b: &str) -> (r: Vec<String>)
    ensures
        string_views(r@) == seq![a@, b@],
{
    let mut r: Vec<String> = Vec::new();
    r.push(string_from(a));
    r.push(string_from(b));
    assert(string_views(r@) =~= seq![a@, b@]);
    r
}

fn no_strings() -> (r: Vec<String>)
    ensures
        string_views(r@) == Seq::<Seq<char>>::empty(),
{
    let r: Vec<String> = Vec::new();
    assert(string_views(r@) =~= Seq::<Seq<char>>::empty());
    r
}

fn strings1(a: &str) -> (r: Vec<String>)
    ensures
        string_views(r@) == seq![a@],
{
    let mut r: Vec<String> = Vec::new();
    r.push(string_from(a));
    assert(string_views(r@) =~= seq![a@]);
    r
}

/// The twelve Saturday slots, 20 minutes long and 5 minutes apart from 09:00.
fn demo_slots() -> (r: Vec<TimeSlot>)
    ensures
        r@.len() == 12,
        forall|i: int| 0 <= i < 12 ==> demo_slot_ok(#[trigger] r@[i], i),
{
    let mut slots: Vec<TimeSlot> = Vec::new();
    let mut start_hour: u64 = 9;
    let mut start_minute: u64 = 0;
    let mut i: u64 = 1;
    while i <= 12
        invariant
            1 <= i <= 13,
            slots@.len() == i - 1,
            start_minute < 60,
            start_hour * 60 + start_minute == 540 + 25 * (i - 1),
            forall|k: int| 0 <= k < i - 1 ==> demo_slot_ok(#[trigger] slots@[k], k),
        decreases 13 - i,
    {
        let end_hour = start_hour + (start_minute + 20) / 60;
        let end_minute = (start_minute + 20) % 60;
        let ghost x = (540 + 25 * (i - 1)) as int;
        proof {
            vstd::arithmetic::div_mod::lemma_fundamental_div_mod((start_minute + 20) as int, 60);
            vstd::arithmetic::div_mod::lemma_fundamental_div_mod_converse(x, 60, start_hour as int, start_minute as int);
            vstd::arithmetic::div_mod::lemma_fundamental_div_mod_converse(x + 20, 60, end_hour as int, end_minute as int);
        }
        let mut start_str = String::new();
        push_decimal2(&mut start_str, start_hour);
        push_char(&mut start_str, ':');
        push_decimal2(&mut start_str, start_minute);
        let mut end_str = String::new();
        push_decimal2(&mut end_str, end_hour);
        push_char(&mut end_str, ':');
        push_decimal2(&mut end_str, end_minute);
        let mut id = string_from("sat_slot_");
        push_decimal(&mut id, i);
        let ghost before = slots@;
        let s = TimeSlot {
            id,
            day: string_from("Saturday"),
            start_time: start_str,
            end_time: end_str,
            kind: FieldKind::Competition,
        };
        assert(s.start_time@ =~= clock_text(start_hour as nat, start_minute as nat));
        assert(s.end_time@ =~= clock_text(end_hour as nat, end_minute as nat));
        assert(demo_slot_ok(s, (i - 1) as int));
        slots.push(s);
        assert forall|k: int| 0 <= k < i implies demo_slot_ok(#[trigger] slots@[k], k) by {
            if k < i - 1 {
                assert(slots@[k] == before[k]);
            }
        }
        proof {
            vstd::arithmetic::div_mod::lemma_fundamental_div_mod((end_minute + 5) as int, 60);
        }
        start_hour = end_hour + (end_minute + 5) / 60;
        start_minute = (end_minute + 5) % 60;
        i = i + 1;
    }
    slots
}

/// The demo's teams: name, division id and organisation.
pub open spec fn demo_teams() -> Seq<(Seq<char>, Seq<char>, Seq<char>)> {
    seq![
        ("Light Strikers"@, "soccer_open"@, "Tech Academy"@),
        ("Shadow Bots"@, "soccer_open"@, "Tech Academy"@),
        ("Cyber Kickers"@, "soccer_open"@, "North High"@),
        ("Robo Rangers"@, "soccer_open"@, "North High"@),
        ("Byte Brawlers"@, "soccer_open"@, "South College"@),
        ("Pixel United"@, "soccer_open"@, "South College"@),
        ("Green Giants"@, "simple_simon"@, "East School"@),
        ("Blue Blasters"@, "simple_simon"@, "East School"@),
        ("Yellow Jackets"@, "simple_simon"@, "West High"@),
        ("Red Radicals"@, "simple_simon"@, "West High"@),
    ]
}

pub open spec fn team_facts(teams: Seq<Team>) -> Seq<(Seq<char>, Seq<char>, Seq<char>)> {
    teams.map_values(|t: Team| (t.name@, t.division_id@, t.organization@))
}

/// The demo's fields and interview table: id, name and kind.
pub open spec fn demo_fields() -> Seq<(Seq<char>, Seq<char>, FieldKind)> {
    seq![
        ("soccer_field_1"@, "Soccer Field 1"@, FieldKind::Competition),
        ("soccer_field_2"@, "Soccer Field 2"@, FieldKind::Competition),
        ("soccer_field_3"@, "Soccer Field 3"@, FieldKind::Competition),
        ("interview_table"@, "Interview Table A"@, FieldKind::Interview),
    ]
}

pub open spec fn field_facts(fields: Seq<Field>) -> Seq<(Seq<char>, Seq<char>, FieldKind)> {
    fields.map_values(|f: Field| (f.id@, f.name@, f.kind))
}

pub open spec fn opt_views(v: Option<Vec<String>>) -> Option<Seq<Seq<char>>> {
    match v {
        Some(l) => Some(string_views(l@)),
        None => None,
    }
}

/// The demo's referees: id, name, the divisions they may judge and the
/// organisations they may not.
pub open spec fn demo_volunteers() -> Seq<(Seq<char>, Seq<char>, Option<Seq<Seq<char>>>, Seq<Seq<char>>)> {
    seq![
        ("v_david"@, "David (Soccer Ref)"@, Some(seq!["soccer_open"@, "simple_simon"@]), seq!["Tech Academy"@]),
        ("v_sarah"@, "Sarah (Soccer Ref)"@, Some(seq!["soccer_open"@, "simple_simon"@]), Seq::empty()),
        ("v_john"@, "John (Simon Open Ref)"@, Some(seq!["soccer_open"@]), Seq::empty()),
        ("v_alice"@, "Alice (Simon Open Ref)"@, Some(seq!["simple_simon"@]), Seq::empty()),
        ("v_bob"@, "Bob (General Ref)"@, None, Seq::empty()),
        ("v_charlie"@, "Charlie (General Ref)"@, None, Seq::empty()),
        ("v_emily"@, "Emily (General Ref)"@, None, Seq::empty()),
    ]
}

pub open spec fn volunteer_facts(vols: Seq<Volunteer>) -> Seq<(Seq<char>, Seq<char>, Option<Seq<Seq<char>>>, Seq<Seq<char>>)> {
    vols.map_values(|v: Volunteer| (v.id@, v.name@, opt_views(v.capabilities), string_views(v.conflict_organizations@)))
}

/// The demo competition: one Saturday, two soccer divisions with ten
/// teams, three fields and an interview table, twelve slots, and seven
/// referees with their availabilities.
pub fn demo_config() -> (c: TournamentConfig)
    ensures
        c.competition_name@ == "RoboCup Jr Soccer Workspace"@,
        c.day_configs@.len() == 1,
        c.day_configs@[0].day@ == "Saturday"@,
        c.day_configs@[0].start_time@ == "09:00"@,
        c.day_configs@[0].end_time@ == "17:00"@,
        c.day_configs@[0].lunch_enabled,
        c.day_configs@[0].lunch_start@ == "12:00"@,
        c.day_configs@[0].lunch_duration == 60,
        c.day_configs@[0].interviews_enabled,
        c.divisions@.len() == 2,
        c.divisions@[0].id@ == "soccer_open"@,
        c.divisions@[0].name@ == "Soccer Open"@,
        c.divisions@[0].volunteers_required == 2,
        c.divisions@[0].interviews_enabled,
        c.divisions@[0].finals_enabled,
        c.divisions@[0].color == Some([129u8, 140u8, 248u8]),
        c.divisions@[1].id@ == "simple_simon"@,
        c.divisions@[1].name@ == "Simple Simon Soccer"@,
        c.divisions@[1].volunteers_required == 1,
        !c.divisions@[1].interviews_enabled,
        !c.divisions@[1].finals_enabled,
        c.divisions@[1].color == Some([52u8, 211u8, 153u8]),
        forall|d: int| 0 <= d < 2 ==> (#[trigger] c.divisions@[d]).mode == SchedulingMode::HeadToHead
            && c.divisions@[d].games_per_team == 3,
        c.teams@.len() == 10,
        forall|t: int| 0 <= t < 6 ==> (#[trigger] c.teams@[t]).division_id@ == "soccer_open"@,
        forall|t: int| 6 <= t < 10 ==> (#[trigger] c.teams@[t]).division_id@ == "simple_simon"@,
        c.fields@.len() == 4,
        forall|f: int| 0 <= f < 3 ==> (#[trigger] c.fields@[f]).kind == FieldKind::Competition,
        c.fields@[3].kind == FieldKind::Interview,
        c.time_slots@.len() == 12,
        forall|i: int| 0 <= i < 12 ==> demo_slot_ok(#[trigger] c.time_slots@[i], i),
        c.volunteers@.len() == 7,
        string_views(c.volunteers@[0].availabilities@) == demo_slot_ids(1, 12),
        string_views(c.volunteers@[1].availabilities@) == demo_slot_ids(1, 8),
        string_views(c.volunteers@[2].availabilities@) == demo_slot_ids(1, 12),
        string_views(c.volunteers@[3].availabilities@) == demo_slot_ids(5, 12),
        string_views(c.volunteers@[4].availabilities@) == demo_slot_ids(1, 12),
        string_views(c.volunteers@[5].availabilities@) == demo_slot_ids(1, 10),
        string_views(c.volunteers@[6].availabilities@) == demo_slot_ids(1, 12),
        c.volunteers@[4].capabilities is None,
        team_facts(c.teams@) == demo_teams(),
        field_facts(c.fields@) == demo_fields(),
        volunteer_facts(c.volunteers@) == demo_volunteers(),
        forall|f: int| 0 <= f < 4 ==> (#[trigger] c.fields@[f]).allowed_divisions is None,
        forall|v: int| 0 <= v < 7 ==> (#[trigger] c.volunteers@[v]).attendance_status@.len() == 0
            && c.volunteers@[v].locked_field_ids is None,
{
    let mut c = TournamentConfig::default();
    c.competition_name = string_from("RoboCup Jr Soccer Workspace");
    let mut days: Vec<DayGenConfig> = Vec::new();
    days.push(DayGenConfig {
        day: string_from("Saturday"),
        start_time: string_from("09:00"),
        end_time: string_from("17:00"),
        lunch_enabled: true,
        lunch_start: string_from("12:00"),
        lunch_duration: 60,
        interviews_enabled: true,
    });
    c.day_configs = days;
    // Divisions
    c.divisions.push(demo_division("soccer_open", "Soccer Open", 2, true, 15, true, [129, 140, 248]));
    c.divisions.push(demo_division("simple_simon", "Simple Simon Soccer", 1, false, 10, false, [52, 211, 153]));
    // Teams
    c.teams.push(demo_team("Light Strikers", "soccer_open", "Tech Academy"));
    c.teams.push(demo_team("Shadow Bots", "soccer_open", "Tech Academy"));
    c.teams.push(demo_team("Cyber Kickers", "soccer_open", "North High"));
    c.teams.push(demo_team("Robo Rangers", "soccer_open", "North High"));
    c.teams.push(demo_team("Byte Brawlers", "soccer_open", "South College"));
    c.teams.push(demo_team("Pixel United", "soccer_open", "South College"));
    c.teams.push(demo_team("Green Giants", "simple_simon", "East School"));
    c.teams.push(demo_team("Blue Blasters", "simple_simon", "East School"));
    c.teams.push(demo_team("Yellow Jackets", "simple_simon", "West High"));
    c.teams.push(demo_team("Red Radicals", "simple_simon", "West High"));
    // Fields
    c.fields.push(demo_field("soccer_field_1", "Soccer Field 1", FieldKind::Competition));
    c.fields.push(demo_field("soccer_field_2", "Soccer Field 2", FieldKind::Competition));
    c.fields.push(demo_field("soccer_field_3", "Soccer Field 3", FieldKind::Competition));
    c.fields.push(demo_field("interview_table", "Interview Table A", FieldKind::Interview));
    // Time slots
    c.time_slots = demo_slots();
    // Volunteers
    c.volunteers.push(
        demo_volunteer(
            "v_david",
            "David (Soccer Ref)",
            1,
            12,
            Some(strings2("soccer_open", "simple_simon")),
            strings1("Tech Academy"),
        ),
    );
    c.volunteers.push(
        demo_volunteer("v_sarah", "Sarah (Soccer Ref)", 1, 8, Some(strings2("soccer_open", "simple_simon")), no_strings()),
    );
    c.volunteers.push(demo_volunteer("v_john", "John (Simon Open Ref)", 1, 12, Some(strings1("soccer_open")), no_strings()));
    c.volunteers.push(demo_volunteer("v_alice", "Alice (Simon Open Ref)", 5, 12, Some(strings1("simple_simon")), no_strings()));
    c.volunteers.push(demo_volunteer("v_bob", "Bob (General Ref)", 1, 12, None, no_strings()));
    c.volunteers.push(demo_volunteer("v_charlie", "Charlie (General Ref)", 1, 10, None, no_strings()));
    c.volunteers.push(demo_volunteer("v_emily", "Emily (General Ref)", 1, 12, None, no_strings()));
    assert(team_facts(c.teams@) =~= demo_teams());
    assert(field_facts(c.fields@) =~= demo_fields());
    assert(volunteer_facts(c.volunteers@) =~= demo_volunteers());
    c
}

} // verus!
