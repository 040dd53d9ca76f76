use rcja_tournament_scheduler::analysis::{
    block_summary, day_range, day_shifts, gap_range, gap_sums_fit, hour_marks, long_gap, short_gap, team_activities,
    unique_days, division_name_or_unknown,
};
use rcja_tournament_scheduler::model::{
    Activity, FieldKind, MatchStage, Schedule, ScheduleAssignment, TimeSlot, TournamentConfig,
};

fn slot(id: &str, day: &str, start: &str, end: &str) -> TimeSlot {
    TimeSlot {
        id: id.to_string(),
        day: day.to_string(),
        start_time: start.to_string(),
        end_time: end.to_string(),
        kind: FieldKind::Competition,
    }
}

fn game(a: &str, b: &str, slot_id: &str, vols: &[&str]) -> ScheduleAssignment {
    ScheduleAssignment {
        activity: Activity::Match {
            id: format!("{}-{}", a, b),
            team_a: a.to_string(),
            team_b: b.to_string(),
            division_id: "d".to_string(),
            duration_minutes: 20,
            stage: MatchStage::RoundRobin { cycle: 0, round: 0 },
        },
        time_slot_id: slot_id.to_string(),
        field_id: None,
        volunteer_ids: vols.iter().map(|v| v.to_string()).collect(),
    }
}

fn config() -> TournamentConfig {
    let mut c = TournamentConfig::default();
    c.time_slots.push(slot("s1", "Saturday", "09:00", "09:20"));
    c.time_slots.push(slot("s2", "Saturday", "10:00", "10:20"));
    c.time_slots.push(slot("s3", "Sunday", "09:00", "09:20"));
    c.time_slots.push(slot("s4", "Saturday", "09:30", "09:50"));
    c
}

#[test]
fn team_timeline_orders_by_day_then_start() {
    let c = config();
    let s = Schedule {
        assignments: vec![
            game("A", "B", "s3", &[]),
            game("A", "C", "s2", &[]),
            game("B", "C", "s1", &[]),
            game("C", "A", "s4", &[]),
            game("A", "D", "missing", &[]),
        ],
    };
    let acts = team_activities(&c, &s, "A");
    let got: Vec<(String, u32)> = acts.iter().map(|a| (a.0.clone(), a.1)).collect();
    assert_eq!(
        got,
        vec![("Saturday".to_string(), 570), ("Saturday".to_string(), 600), ("Sunday".to_string(), 540)]
    );
    assert!(gap_sums_fit(&acts));
    // 09:30-09:50 then 10:00: a ten-minute wait; the day change gives none.
    assert_eq!(gap_range(&acts), Some((10, 10)));
    assert_eq!(day_range(&acts), Some("Saturday - Sunday".to_string()));
    assert!(short_gap(10));
    assert!(!long_gap(180));
    assert!(long_gap(181));
}

#[test]
fn single_day_range_and_no_gaps() {
    let c = config();
    let s = Schedule { assignments: vec![game("B", "C", "s1", &[]), game("C", "B", "s2", &[])] };
    let acts = team_activities(&c, &s, "B");
    assert_eq!(day_range(&acts), Some("Saturday (09:00 - 10:20)".to_string()));
    assert_eq!(gap_range(&acts), Some((40, 40)));
    let none = team_activities(&c, &s, "Z");
    assert_eq!(day_range(&none), None);
    assert_eq!(gap_range(&none), None);
    assert_eq!(division_name_or_unknown(&c, "nope"), "Unknown");
}

#[test]
fn volunteer_day_shifts_and_blocks() {
    let c = config();
    let s = Schedule {
        assignments: vec![game("A", "B", "s2", &["v"]), game("A", "C", "s1", &["v", "w"]), game("B", "C", "s3", &["v"])],
    };
    assert_eq!(unique_days(&c.time_slots), vec!["Saturday", "Sunday"]);
    let shifts = day_shifts(&c.time_slots, &s, "Saturday", "v");
    assert_eq!(shifts, vec![(540, 560), (600, 620)]);
    assert_eq!(day_shifts(&c.time_slots, &s, "Saturday", "w"), vec![(540, 560)]);
    assert_eq!(block_summary(&vec![(540, 560), (600, 620)]), "09:00–09:20, 10:00–10:20");
    assert_eq!(block_summary(&vec![]), "—");
    assert_eq!(hour_marks(540, 700), vec![600, 660]);
    assert_eq!(hour_marks(600, 600), Vec::<u32>::new());
}
