use rcja_tournament_scheduler::model::{
    Activity, Division, Field, FieldKind, MatchStage, ScheduleAssignment, SchedulingMode, Team, TimeSlot,
    TournamentConfig,
};
use rcja_tournament_scheduler::print_report::{
    report_summary, report_team_cards, schedule_section_rows, ReportType, SectionRow,
};

fn slot(id: &str, day: &str, start: &str) -> TimeSlot {
    TimeSlot {
        id: id.to_string(),
        day: day.to_string(),
        start_time: start.to_string(),
        end_time: start.to_string(),
        kind: FieldKind::Competition,
    }
}

fn division(id: &str, name: &str) -> Division {
    Division {
        id: id.to_string(),
        name: name.to_string(),
        mode: SchedulingMode::HeadToHead,
        games_per_team: 2,
        volunteers_required: 1,
        duration_minutes: 20,
        allowed_fields: None,
        interviews_enabled: true,
        interview_volunteers_required: 1,
        interview_duration_minutes: 10,
        finals_enabled: false,
        finals_rounds: None,
        finals_duration_minutes: None,
        finals_third_place_playoff: false,
        color: None,
        min_match_break_minutes: None,
    }
}

fn team(name: &str, div: &str, org: &str) -> Team {
    Team { name: name.to_string(), division_id: div.to_string(), organization: org.to_string() }
}

fn field(id: &str, name: &str) -> Field {
    Field { id: id.to_string(), name: name.to_string(), kind: FieldKind::Competition, allowed_divisions: None }
}

fn game(a: &str, b: &str, round: usize, slot_id: &str, field_id: Option<&str>) -> ScheduleAssignment {
    ScheduleAssignment {
        activity: Activity::Match {
            id: format!("{}-{}-{}", a, b, round),
            team_a: a.to_string(),
            team_b: b.to_string(),
            division_id: "d1".to_string(),
            duration_minutes: 20,
            stage: MatchStage::RoundRobin { cycle: 0, round },
        },
        time_slot_id: slot_id.to_string(),
        field_id: field_id.map(|f| f.to_string()),
        volunteer_ids: vec![],
    }
}

fn config() -> TournamentConfig {
    let mut c = TournamentConfig::default();
    c.competition_name = "Cup".to_string();
    c.divisions.push(division("d1", "Soccer Open"));
    c.divisions.push(division("d2", "Rescue"));
    c.teams.push(team("Zeta", "d1", "Alpha School"));
    c.teams.push(team("Beta", "d1", ""));
    c.teams.push(team("Gamma", "d2", "G"));
    c.fields.push(field("f1", "Field 1"));
    c.fields.push(field("f2", "Field 2"));
    c.time_slots.push(slot("s1", "Saturday", "09:00"));
    c.time_slots.push(slot("s2", "Saturday", "10:00"));
    c.time_slots.push(slot("s3", "Sunday", "09:00"));
    c
}

fn assignments() -> Vec<ScheduleAssignment> {
    vec![
        game("Zeta", "Beta", 1, "s2", Some("f2")),
        game("Beta", "Zeta", 0, "s1", Some("f2")),
        ScheduleAssignment {
            activity: Activity::Run {
                id: "r".to_string(),
                team: "Gamma".to_string(),
                division_id: "d2".to_string(),
                run_number: 1,
                duration_minutes: 20,
            },
            time_slot_id: "s1".to_string(),
            field_id: Some("f1".to_string()),
            volunteer_ids: vec![],
        },
        ScheduleAssignment {
            activity: Activity::Interview {
                id: "i".to_string(),
                team: "Zeta".to_string(),
                division_id: "d1".to_string(),
                duration_minutes: 10,
            },
            time_slot_id: "s3".to_string(),
            field_id: None,
            volunteer_ids: vec![],
        },
        game("Zeta", "Beta", 1, "missing", Some("f1")),
    ]
}

fn cells(r: &SectionRow) -> [&str; 5] {
    [r.time.as_str(), r.round.as_str(), r.field.as_str(), r.activity.as_str(), r.detail.as_str()]
}

#[test]
fn masthead_counts_distinct_rounds_and_fields() {
    let s = report_summary(&assignments());
    assert_eq!(s.rounds, 2);
    assert_eq!(s.fields, 2);
    assert_eq!(s.activities, 5);
    let empty = report_summary(&[]);
    assert_eq!((empty.rounds, empty.fields, empty.activities), (0, 0, 0));
}

#[test]
fn competition_rows_by_day_time_then_field() {
    let rows = schedule_section_rows(&config(), &assignments(), false, false);
    let got: Vec<[&str; 5]> = rows.iter().map(cells).collect();
    assert_eq!(
        got,
        vec![
            ["Sat 09:00", "Run #1", "Field 1", "Gamma Run #1", "Rescue - G"],
            ["Sat 09:00", "Round 1", "Field 2", "Beta vs Zeta", "Soccer Open - Alpha School"],
            ["Sat 10:00", "Round 2", "Field 2", "Zeta vs Beta", "Soccer Open - Alpha School"],
        ]
    );
}

#[test]
fn interview_rows_use_twelve_hour_clock() {
    let rows = schedule_section_rows(&config(), &assignments(), true, true);
    let got: Vec<[&str; 5]> = rows.iter().map(cells).collect();
    assert_eq!(got, vec![["Sun 9:00 AM", "", "-", "Zeta Interview", "Soccer Open - Alpha School"]]);
}

#[test]
fn master_report_cards_sorted_by_name() {
    let cards = report_team_cards(&config(), &assignments(), ReportType::Master, false);
    let names: Vec<&str> = cards.iter().map(|c| c.name.as_str()).collect();
    assert_eq!(names, vec!["Beta", "Gamma", "Zeta"]);
    assert_eq!(cards[0].org, "");
    assert_eq!(cards[2].org, "Alpha School");
    let zeta: Vec<(&str, &str, &str)> =
        cards[2].rows.iter().map(|r| (r.0.as_str(), r.1.as_str(), r.2.as_str())).collect();
    assert_eq!(
        zeta,
        vec![
            ("Sat 09:00", "vs Beta", "Field 2"),
            ("Sat 10:00", "vs Beta", "Field 2"),
            ("Sun 09:00", "Interview", "-"),
        ]
    );
}

#[test]
fn division_report_cards_follow_first_activity() {
    let mut a = assignments();
    a.swap(0, 2);
    let cards = report_team_cards(&config(), &a, ReportType::Division, false);
    let names: Vec<&str> = cards.iter().map(|c| c.name.as_str()).collect();
    assert_eq!(names, vec!["Gamma"]);
    let cards = report_team_cards(&config(), &assignments(), ReportType::Division, false);
    let names: Vec<&str> = cards.iter().map(|c| c.name.as_str()).collect();
    assert_eq!(names, vec!["Zeta", "Beta"]);
    assert!(report_team_cards(&config(), &[], ReportType::Division, false).is_empty());
    assert!(report_team_cards(&config(), &assignments(), ReportType::Team, false).is_empty());
    assert!(report_team_cards(&config(), &assignments(), ReportType::Volunteer, false).is_empty());
}
