use rcja_tournament_scheduler::availability::validate_ranges;
use rcja_tournament_scheduler::progress::SolverProgress;
use rcja_tournament_scheduler::tabs::{tab_order, Tab};

fn ranges(v: &[(&str, &str)]) -> Vec<(String, String)> {
    v.iter().map(|(a, b)| (a.to_string(), b.to_string())).collect()
}

#[test]
fn ranges_validate() {
    let (flags, err) = validate_ranges(&ranges(&[("09:00", "10:00"), ("10:00", "11:00")]));
    assert_eq!(flags, vec![false, false]);
    assert_eq!(err, None);
    let (flags, err) = validate_ranges(&ranges(&[("09:00", "10:30"), ("08:00", "08:30"), ("10:00", "11:00")]));
    assert_eq!(flags, vec![true, false, true]);
    assert_eq!(err, Some("Ranges must not overlap.".to_string()));
    let (flags, err) = validate_ranges(&ranges(&[("10:00", "09:00"), ("x", "11:00")]));
    assert_eq!(flags, vec![true, true]);
    assert_eq!(err, Some("Each range must end after it starts.".to_string()));
    // A range inside a longer one is flagged though they are not neighbours
    // in start order.
    let (flags, err) = validate_ranges(&ranges(&[("00:00", "05:00"), ("01:00", "02:00"), ("03:00", "04:00")]));
    assert_eq!(flags, vec![true, true, true]);
    assert_eq!(err, Some("Ranges must not overlap.".to_string()));
    // A malformed range does not make a well-formed one it overlaps flagged.
    let (flags, _) = validate_ranges(&ranges(&[("09:00", "10:00"), ("09:30", "09:00")]));
    assert_eq!(flags, vec![false, true]);
    let (flags, err) = validate_ranges(&ranges(&[]));
    assert!(flags.is_empty());
    assert_eq!(err, None);
}

#[test]
fn tabs_and_labels() {
    assert_eq!(tab_order().len(), 7);
    assert_eq!(tab_order()[0], Tab::Dashboard);
    assert_eq!(Tab::TimeSlots.label(), "📅 Time Slots");
    assert_eq!(Tab::TimeSlots.opened_message(), "Opened Time tab");
    assert_eq!(Tab::Dashboard.opened_message(), "Opened Dashboard tab");
    assert_eq!(Tab::Solver.opened_message(), "Opened Schedule tab");
}

#[test]
fn solver_progress_keeps_high_water_marks() {
    let mut p = SolverProgress::new();
    assert!(p.record(1, 3, 50));
    assert_eq!(p.restarts_progress, vec![0, 50, 0]);
    assert!(!p.record(0, 3, 40));
    assert_eq!(p.restarts_progress, vec![40, 50, 0]);
    assert_eq!(p.current_restart, 1);
    assert!(p.record(0, 3, 60));
    // A later restart is followed even when it is behind.
    assert!(p.record(1, 3, 30));
    assert_eq!(p.current_restart, 1);
    assert_eq!(p.restarts_progress, vec![60, 50, 0]);
    assert_eq!(p.completed_work(), 110);
    // A new run with another restart count starts over.
    assert!(!p.record(0, 2, 5));
    assert_eq!(p.restarts_progress, vec![5, 0]);
}

use rcja_tournament_scheduler::demo::demo_config;
use rcja_tournament_scheduler::export::{export_step_count, ExportOptions};
use rcja_tournament_scheduler::theme::hex_slices_ok;

#[test]
fn demo_competition_contents() {
    let c = demo_config();
    assert_eq!(c.competition_name, "RoboCup Jr Soccer Workspace");
    assert_eq!(c.divisions.len(), 2);
    assert_eq!(c.teams.len(), 10);
    assert_eq!(c.fields.len(), 4);
    assert_eq!(c.time_slots.len(), 12);
    assert_eq!(c.time_slots[0].id, "sat_slot_1");
    assert_eq!(c.time_slots[0].start_time, "09:00");
    assert_eq!(c.time_slots[0].end_time, "09:20");
    assert_eq!(c.time_slots[2].start_time, "09:50");
    assert_eq!(c.time_slots[11].id, "sat_slot_12");
    assert_eq!(c.time_slots[11].start_time, "13:35");
    assert_eq!(c.time_slots[11].end_time, "13:55");
    assert_eq!(c.volunteers.len(), 7);
    assert_eq!(c.volunteers[3].availabilities.first().map(|s| s.as_str()), Some("sat_slot_5"));
    assert_eq!(c.volunteers[1].availabilities.len(), 8);
}

#[test]
fn export_steps_count_chosen_reports() {
    let all = ExportOptions { master: true, divisions: true, teams: true, volunteers: true, csv: true, pdf: false, time_12h: false };
    assert_eq!(export_step_count(&all, 2, 10, 5), 18);
    let none = ExportOptions { master: false, divisions: false, teams: false, volunteers: false, ..all };
    assert_eq!(export_step_count(&none, 2, 10, 5), 1);
    let teams_only = ExportOptions { teams: true, ..none };
    assert_eq!(export_step_count(&teams_only, 2, 10, 5), 10);
}

#[test]
fn hex_slicing_checks() {
    assert!(hex_slices_ok("#abcdef"));
    assert!(hex_slices_ok("é1234"));
    // The first pair would end inside the two-byte character.
    assert!(!hex_slices_ok("1é234"));
    assert!(hex_slices_ok("xyz"));
}
