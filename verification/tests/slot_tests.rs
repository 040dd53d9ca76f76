use rcja_tournament_scheduler::generation::{
    count_games, count_games_checked, day_generation_fits, generation_fits, required_slots, SlotGenSettings,
};
use rcja_tournament_scheduler::model::{
    DayGenConfig, Division, Field, FieldKind, SchedulingMode, Team, TimeSlot, TournamentConfig, Volunteer,
    FinalsRounds,
};
use rcja_tournament_scheduler::slots::{day_order, next_day_for_settings};

fn slot(id: &str, day: &str, start: &str, end: &str) -> TimeSlot {
    TimeSlot {
        id: id.to_string(),
        day: day.to_string(),
        start_time: start.to_string(),
        end_time: end.to_string(),
        kind: FieldKind::Competition,
    }
}

fn division(id: &str, mode: SchedulingMode) -> Division {
    Division {
        id: id.to_string(),
        name: id.to_string(),
        mode,
        games_per_team: 2,
        volunteers_required: 1,
        duration_minutes: 20,
        allowed_fields: None,
        interviews_enabled: false,
        interview_volunteers_required: 1,
        interview_duration_minutes: 10,
        finals_enabled: false,
        finals_rounds: None,
        finals_duration_minutes: None,
        finals_third_place_playoff: false,
        color: None,
        min_match_break_minutes: None,
    }
}

fn team(name: &str, div: &str) -> Team {
    Team { name: name.to_string(), division_id: div.to_string(), organization: "Org".to_string() }
}

fn volunteer(id: &str, avail: &[&str]) -> Volunteer {
    Volunteer {
        id: id.to_string(),
        name: id.to_string(),
        availabilities: avail.iter().map(|s| s.to_string()).collect(),
        capabilities: None,
        conflict_organizations: Vec::new(),
        attendance_status: Vec::new(),
        locked_field_ids: None,
    }
}

fn day(name: &str, start: &str, end: &str) -> DayGenConfig {
    DayGenConfig {
        day: name.to_string(),
        start_time: start.to_string(),
        end_time: end.to_string(),
        lunch_enabled: false,
        lunch_start: "12:00".to_string(),
        lunch_duration: 60,
        interviews_enabled: false,
    }
}

fn field(id: &str) -> Field {
    Field { id: id.to_string(), name: id.to_string(), kind: FieldKind::Competition, allowed_divisions: None }
}

fn base_config() -> TournamentConfig {
    let mut c = TournamentConfig::default();
    c.divisions.push(division("open", SchedulingMode::IndividualRun));
    c.teams.push(team("A", "open"));
    c.teams.push(team("B", "open"));
    c.fields.push(field("f1"));
    c
}

fn ids(c: &TournamentConfig) -> Vec<String> {
    c.time_slots.iter().map(|s| s.id.clone()).collect()
}

#[test]
fn day_order_ranks_weekdays_case_insensitively() {
    assert_eq!(day_order("Monday"), 1);
    assert_eq!(day_order("SATURDAY"), 6);
    assert_eq!(day_order("sunday"), 7);
    assert_eq!(day_order("Funday"), 8);
}

#[test]
fn sorting_orders_by_weekday_then_start_keeping_ties() {
    let mut c = TournamentConfig::default();
    c.time_slots.push(slot("s1", "Sunday", "09:00", "09:20"));
    c.time_slots.push(slot("s2", "Saturday", "10:00", "10:20"));
    c.time_slots.push(slot("s3", "Saturday", "09:00", "09:20"));
    c.time_slots.push(slot("s4", "Holiday", "08:00", "08:20"));
    c.time_slots.push(slot("s5", "Saturday", "09:00", "09:30"));
    c.sort_time_slots();
    assert_eq!(ids(&c), vec!["s3", "s5", "s2", "s1", "s4"]);
}

#[test]
fn games_counted_per_division() {
    let mut c = base_config();
    let mut h2h = division("soccer", SchedulingMode::HeadToHead);
    h2h.finals_enabled = true;
    h2h.finals_rounds = Some(FinalsRounds::Semis);
    h2h.finals_third_place_playoff = true;
    h2h.interviews_enabled = true;
    c.divisions.push(h2h);
    c.teams.push(team("C", "soccer"));
    c.teams.push(team("D", "soccer"));
    c.teams.push(team("E", "soccer"));
    // A head-to-head division with a single team needs nothing.
    c.divisions.push(division("lonely", SchedulingMode::HeadToHead));
    c.teams.push(team("F", "lonely"));
    // open: 2 teams x 2 runs = 4; soccer: 6 round robin + 3 + 1 finals + 3 interviews = 13.
    assert_eq!(count_games(&c, &vec![0, 6, 9]), 17);
}

#[test]
fn generation_lays_out_slots_and_reports() {
    let mut c = base_config();
    c.day_configs.push(day("Saturday", "09:00", "10:00"));
    let settings = SlotGenSettings::default();
    let msg = c.auto_generate_time_slots(&settings, &vec![0]);
    assert_eq!(msg, "Success! Generated 2 slots of duration 20m across 1 day(s).");
    assert_eq!(ids(&c), vec!["saturday_auto_slot_comp_1", "saturday_auto_slot_comp_2"]);
    assert_eq!(c.time_slots[0].start_time, "09:00");
    assert_eq!(c.time_slots[0].end_time, "09:20");
    assert_eq!(c.time_slots[1].start_time, "09:25");
    assert_eq!(c.time_slots[1].end_time, "09:45");
}

#[test]
fn generation_skips_lunch_and_adds_interviews() {
    let mut c = base_config();
    let mut d = day("Sunday", "11:00", "13:30");
    d.lunch_enabled = true;
    d.lunch_start = "12:00".to_string();
    d.lunch_duration = 60;
    d.interviews_enabled = true;
    c.day_configs.push(d);
    let settings = SlotGenSettings { slot_duration: 30, interview_slot_duration: 15, match_slot_break: 0, interview_slot_break: 45 };
    let msg = c.auto_generate_time_slots(&settings, &vec![0]);
    assert_eq!(msg, "Success! Generated 3 slots of duration 30m across 1 day(s).");
    let starts: Vec<(String, String)> =
        c.time_slots.iter().map(|s| (s.id.clone(), s.start_time.clone())).collect();
    assert_eq!(
        starts,
        vec![
            ("sunday_auto_slot_comp_1".to_string(), "11:00".to_string()),
            ("sunday_auto_slot_int_1".to_string(), "11:00".to_string()),
            ("sunday_auto_slot_comp_2".to_string(), "11:30".to_string()),
            ("sunday_auto_slot_comp_3".to_string(), "13:00".to_string()),
            ("sunday_auto_slot_int_2".to_string(), "13:00".to_string()),
        ]
    );
    assert!(c.time_slots.iter().all(|s| s.day == "Sunday"));
    assert_eq!(c.time_slots[1].kind, FieldKind::Interview);
}

#[test]
fn generation_keeps_other_days_and_carries_availability() {
    let mut c = base_config();
    c.time_slots.push(slot("fri1", "Friday", "09:00", "09:20"));
    c.time_slots.push(slot("old1", "saturday", "09:00", "09:30"));
    c.volunteers.push(volunteer("v1", &["fri1", "old1"]));
    c.volunteers.push(volunteer("v2", &["fri1"]));
    c.day_configs.push(day("Saturday", "09:00", "10:00"));
    let settings = SlotGenSettings::default();
    c.auto_generate_time_slots(&settings, &vec![0]);
    assert_eq!(ids(&c), vec!["fri1", "saturday_auto_slot_comp_1", "saturday_auto_slot_comp_2"]);
    // 09:00-09:30 overlaps the first new slot (09:00-09:20) and the second (09:25-09:45).
    assert_eq!(
        c.volunteers[0].availabilities,
        vec!["fri1", "saturday_auto_slot_comp_1", "saturday_auto_slot_comp_2"]
    );
    assert_eq!(c.volunteers[1].availabilities, vec!["fri1"]);
}

#[test]
fn generation_refuses_without_fields_games_or_days() {
    let mut c = base_config();
    c.fields.clear();
    c.day_configs.push(day("Saturday", "09:00", "10:00"));
    let settings = SlotGenSettings::default();
    assert_eq!(
        c.auto_generate_time_slots(&settings, &vec![0]),
        "Error: Please add at least one field first to allocate slots!"
    );
    let mut c = base_config();
    c.teams.clear();
    c.day_configs.push(day("Saturday", "09:00", "10:00"));
    assert_eq!(
        c.auto_generate_time_slots(&settings, &vec![0]),
        "Error: No teams or divisions defined to calculate matches!"
    );
    let mut c = base_config();
    c.time_slots.push(slot("keep", "Saturday", "09:00", "09:20"));
    assert_eq!(
        c.auto_generate_time_slots(&settings, &vec![0]),
        "Error: No day configurations specified for auto-generation!"
    );
    assert_eq!(ids(&c), vec!["keep"]);
}

#[test]
fn generation_stops_at_unreadable_day() {
    let mut c = base_config();
    c.time_slots.push(slot("sat", "Saturday", "09:00", "09:20"));
    c.time_slots.push(slot("sun", "Sunday", "09:00", "09:20"));
    c.day_configs.push(day("Saturday", "09:00", "09:30"));
    c.day_configs.push(day("Sunday", "nine", "10:00"));
    let settings = SlotGenSettings::default();
    assert_eq!(
        c.auto_generate_time_slots(&settings, &vec![0]),
        "Error: Invalid start time format for Sunday. Use HH:MM."
    );
    // Both days' old slots are gone; Saturday was laid out before the error.
    assert_eq!(ids(&c), vec!["saturday_auto_slot_comp_1"]);
    let mut c = base_config();
    c.day_configs.push(day("Monday", "09:xx", "10:00"));
    assert_eq!(c.auto_generate_time_slots(&settings, &vec![0]), "Error parsing start minute for Monday.");
    let mut c = base_config();
    c.day_configs.push(day("Monday", "09:00", "10"));
    assert_eq!(
        c.auto_generate_time_slots(&settings, &vec![0]),
        "Error: Invalid end time format for Monday. Use HH:MM."
    );
}

#[test]
fn new_day_settings_take_the_next_free_weekday() {
    let mut c = TournamentConfig::default();
    c.add_day_config();
    assert_eq!(c.day_configs.len(), 1);
    assert_eq!(c.day_configs[0].day, "Saturday");
    assert_eq!(c.day_configs[0].start_time, "09:00");
    assert_eq!(c.day_configs[0].end_time, "17:00");
    assert!(c.day_configs[0].lunch_enabled);
    assert_eq!(c.day_configs[0].lunch_start, "12:00");
    assert_eq!(c.day_configs[0].lunch_duration, 60);
    assert!(c.day_configs[0].interviews_enabled);
    c.add_day_config();
    assert_eq!(c.day_configs[1].day, "Sunday");
    c.add_day_config();
    assert_eq!(c.day_configs[2].day, "Monday");

    let configs = vec![day("Sunday", "09:00", "17:00"), day("Monday", "09:00", "17:00")];
    assert_eq!(next_day_for_settings(&configs), "Tuesday");
    // A name that is no weekday counts as Friday.
    let configs = vec![day("Funday", "09:00", "17:00")];
    assert_eq!(next_day_for_settings(&configs), "Saturday");
    // With every day taken, the day after the last one is used again.
    let week = ["Monday", "Tuesday", "Wednesday", "Thursday", "Friday", "Saturday", "Sunday"];
    let configs: Vec<DayGenConfig> = week.iter().map(|d| day(d, "09:00", "17:00")).collect();
    assert_eq!(next_day_for_settings(&configs), "Monday");
}

#[test]
fn day_settings_exist_once_asked_for() {
    let mut c = TournamentConfig::default();
    c.ensure_day_config();
    assert_eq!(c.day_configs.len(), 1);
    assert_eq!(c.day_configs[0].day, "Saturday");
    c.day_configs[0].day = "Friday".to_string();
    c.ensure_day_config();
    assert_eq!(c.day_configs.len(), 1);
    assert_eq!(c.day_configs[0].day, "Friday");
}

#[test]
fn required_slots_round_up_per_field() {
    assert_eq!(required_slots(10, 3), 4);
    assert_eq!(required_slots(9, 3), 3);
    assert_eq!(required_slots(0, 3), 0);
    assert_eq!(required_slots(5, 0), 0);
}

#[test]
fn layouts_that_cannot_complete_are_recognised() {
    let gen = SlotGenSettings::default();
    let sat = day("Saturday", "09:00", "10:00");
    // 09:00, 09:25 fit before 10:00 (20-minute slots, 5-minute breaks).
    assert_eq!(day_generation_fits(&sat, &gen), Some(2));
    assert!(generation_fits(&vec![sat.clone()], &gen));
    let stuck = SlotGenSettings { slot_duration: 0, interview_slot_duration: 10, match_slot_break: 0, interview_slot_break: 5 };
    assert_eq!(day_generation_fits(&sat, &stuck), None);
    assert!(!generation_fits(&vec![sat.clone()], &stuck));
    // An end time past what minutes can hold.
    let huge = day("Saturday", "09:00", "99999999:00");
    assert_eq!(day_generation_fits(&huge, &gen), None);
    // Generation stops at a day whose hours do not read, so later days are
    // never laid out.
    assert!(generation_fits(&vec![day("Friday", "bad", "10:00"), huge.clone()], &gen));
    assert!(!generation_fits(&vec![sat, huge], &gen));
}

#[test]
fn checked_game_count_matches_or_overflows() {
    let c = base_config();
    assert_eq!(count_games_checked(&c, &vec![0]), Some(count_games(&c, &vec![0])));
    let mut c = TournamentConfig::default();
    let mut h2h = division("soccer", SchedulingMode::HeadToHead);
    h2h.finals_enabled = true;
    c.divisions.push(h2h);
    c.teams.push(team("C", "soccer"));
    c.teams.push(team("D", "soccer"));
    assert_eq!(count_games_checked(&c, &vec![usize::MAX]), None);
}
