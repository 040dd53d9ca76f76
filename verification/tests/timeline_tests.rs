use rcja_tournament_scheduler::model::{
    Activity, DayGenConfig, Field, FieldKind, MatchStage, ScheduleAssignment, TimeSlot, TournamentConfig,
};
use rcja_tournament_scheduler::timeline::{timeline_breaks, timeline_columns, timeline_lines, timeline_span};

fn slot(id: &str, day: &str, start: &str, end: &str, kind: FieldKind) -> TimeSlot {
    TimeSlot {
        id: id.to_string(),
        day: day.to_string(),
        start_time: start.to_string(),
        end_time: end.to_string(),
        kind,
    }
}

fn field(id: &str, kind: FieldKind) -> Field {
    Field { id: id.to_string(), name: id.to_string(), kind, allowed_divisions: None }
}

fn game_at(slot_id: &str, minutes: u32) -> ScheduleAssignment {
    ScheduleAssignment {
        activity: Activity::Match {
            id: "m".to_string(),
            team_a: "A".to_string(),
            team_b: "B".to_string(),
            division_id: "d".to_string(),
            duration_minutes: minutes,
            stage: MatchStage::RoundRobin { cycle: 0, round: 0 },
        },
        time_slot_id: slot_id.to_string(),
        field_id: None,
        volunteer_ids: vec![],
    }
}

fn config() -> TournamentConfig {
    let mut c = TournamentConfig::default();
    c.time_slots.push(slot("s3", "Saturday", "12:00", "12:20", FieldKind::Competition));
    c.time_slots.push(slot("s1", "Saturday", "09:00", "09:20", FieldKind::Competition));
    c.time_slots.push(slot("s2", "Saturday", "09:30", "09:50", FieldKind::Competition));
    c.time_slots.push(slot("i1", "Saturday", "09:00", "09:10", FieldKind::Interview));
    c.time_slots.push(slot("u1", "Sunday", "10:00", "10:20", FieldKind::Competition));
    c
}

#[test]
fn columns_put_competition_fields_first() {
    let fields = vec![
        field("Int1", FieldKind::Interview),
        field("F1", FieldKind::Competition),
        field("F2", FieldKind::Competition),
        field("Int2", FieldKind::Interview),
    ];
    assert_eq!(timeline_columns(&fields), vec![1, 2, 0, 3]);
    assert!(timeline_columns(&vec![]).is_empty());
}

#[test]
fn span_covers_slots_settings_and_activities() {
    let mut c = config();
    // A short day is shown as four hours.
    assert_eq!(timeline_span(&c, &[], "Sunday"), Some((600, 840)));
    // No slot on the day: nothing to show.
    assert_eq!(timeline_span(&c, &[], "Monday"), None);
    assert_eq!(timeline_span(&c, &[], "Saturday"), Some((540, 780)));
    c.day_configs.push(DayGenConfig {
        day: "Saturday".to_string(),
        start_time: "08:30".to_string(),
        end_time: "17:00".to_string(),
        lunch_enabled: false,
        lunch_start: "12:00".to_string(),
        lunch_duration: 60,
        interviews_enabled: true,
    });
    assert_eq!(timeline_span(&c, &[], "Saturday"), Some((510, 1020)));
    // An activity running past the day's end stretches it; one on another
    // day or in an unknown slot does not.
    let a = vec![game_at("s3", 400), game_at("u1", 900), game_at("nowhere", 2000)];
    assert_eq!(timeline_span(&c, &a, "Saturday"), Some((510, 1120)));
}

#[test]
fn lines_every_ten_minutes_major_on_half_hours() {
    let lines = timeline_lines(505, 540);
    let got: Vec<(u32, bool, &str)> = lines.iter().map(|l| (l.minute, l.major, l.label.as_str())).collect();
    assert_eq!(
        got,
        vec![(510, true, "08:30"), (520, false, "08:40"), (530, false, "08:50"), (540, true, "09:00")]
    );
    assert!(timeline_lines(541, 549).is_empty());
    assert_eq!(timeline_lines(600, 600).len(), 1);
}

#[test]
fn breaks_between_slots_sorted_by_start() {
    let c = config();
    assert_eq!(timeline_breaks(&c.time_slots, "Saturday", FieldKind::Competition), vec![(590, 720)]);
    assert!(timeline_breaks(&c.time_slots, "Saturday", FieldKind::Interview).is_empty());
    assert!(timeline_breaks(&c.time_slots, "Sunday", FieldKind::Competition).is_empty());
}
