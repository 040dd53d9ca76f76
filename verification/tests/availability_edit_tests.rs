use rcja_tournament_scheduler::availability::{
    apply_day_ranges, clear_day, covered_ranges, mark_day_available, slots_in_ranges,
};
use rcja_tournament_scheduler::model::{FieldKind, TimeSlot, Volunteer};

fn slot(id: &str, day: &str, start: &str, end: &str) -> TimeSlot {
    TimeSlot {
        id: id.to_string(),
        day: day.to_string(),
        start_time: start.to_string(),
        end_time: end.to_string(),
        kind: FieldKind::Competition,
    }
}

fn slots() -> Vec<TimeSlot> {
    vec![
        slot("a1", "Saturday", "09:00", "09:20"),
        slot("a2", "Saturday", "09:30", "09:50"),
        slot("b1", "Sunday", "09:00", "09:20"),
        slot("a3", "Saturday", "10:00", "10:20"),
    ]
}

fn volunteer(avail: &[&str]) -> Volunteer {
    Volunteer {
        id: "v".to_string(),
        name: "Val".to_string(),
        availabilities: avail.iter().map(|s| s.to_string()).collect(),
        capabilities: None,
        conflict_organizations: vec!["Org".to_string()],
        attendance_status: Vec::new(),
        locked_field_ids: None,
    }
}

fn ranges(v: &[(&str, &str)]) -> Vec<(String, String)> {
    v.iter().map(|(a, b)| (a.to_string(), b.to_string())).collect()
}

#[test]
fn whole_day_adds_missing_slots_in_order() {
    let mut v = volunteer(&["b1", "a2"]);
    mark_day_available(&mut v, &slots(), "Saturday");
    assert_eq!(v.availabilities, vec!["b1", "a2", "a1", "a3"]);
    assert_eq!(v.name, "Val");
    assert_eq!(v.conflict_organizations, vec!["Org"]);
    mark_day_available(&mut v, &slots(), "Saturday");
    assert_eq!(v.availabilities, vec!["b1", "a2", "a1", "a3"]);
}

#[test]
fn clearing_a_day_keeps_other_ids() {
    let mut v = volunteer(&["b1", "a2", "x", "a1"]);
    clear_day(&mut v, &slots(), "Saturday");
    assert_eq!(v.availabilities, vec!["b1", "x"]);
    clear_day(&mut v, &slots(), "Monday");
    assert_eq!(v.availabilities, vec!["b1", "x"]);
}

#[test]
fn applied_ranges_replace_the_day() {
    let mut v = volunteer(&["a1", "b1", "a3"]);
    let r = ranges(&[("09:00", "09:55"), ("bad", "10:00"), ("10:30", "10:00")]);
    apply_day_ranges(&mut v, &slots(), "Saturday", false, &r);
    assert_eq!(v.availabilities, vec!["b1", "a1", "a2"]);
    apply_day_ranges(&mut v, &slots(), "Saturday", true, &r);
    assert_eq!(v.availabilities, vec!["b1", "a1", "a2", "a3"]);
    apply_day_ranges(&mut v, &slots(), "Saturday", false, &Vec::new());
    assert_eq!(v.availabilities, vec!["b1"]);
}

#[test]
fn covered_ranges_give_back_available_slots() {
    let s = slots();
    let v = volunteer(&["a3", "a1", "b1"]);
    let ranges = covered_ranges(&v, &s);
    let back = slots_in_ranges(&s, &ranges);
    for id in ["a1", "b1", "a3"] {
        assert!(back.iter().any(|x| x == id));
    }
}
