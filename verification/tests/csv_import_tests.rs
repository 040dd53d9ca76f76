use rcja_tournament_scheduler::csv_import::{
    finalize_csv_import, ids_are_fresh, import_csv_teams, import_division_names, lines_of, prepare_csv_import,
};
use rcja_tournament_scheduler::model::{SchedulingMode, TournamentConfig};

const HEADER: &str = "Id,Reg,Status,Name,Withdrawn,Coach,Division,Email,Phone,State,School";

fn row(name: &str, withdrawn: &str, division: &str, school: &str) -> String {
    format!("1,R,ok,{},{},Coach,{},e@x,123,NSW,{}", name, withdrawn, division, school)
}

#[test]
fn lines_follow_str_lines() {
    let got: Vec<String> = lines_of("a\r\nb\n\nc\r").iter().map(|l| l.iter().collect()).collect();
    assert_eq!(got, vec!["a", "b", "", "c\r"]);
    assert!(lines_of("").is_empty());
    assert_eq!(lines_of("x\n").len(), 1);
}

#[test]
fn prepare_lists_divisions_sorted_once() {
    let content = format!(
        "{}\n{}\n{}\n{}\nshort,row\n",
        HEADER,
        row("Bots", "false", " Soccer Open ", "North"),
        row("Cats", "true", "Rescue", "South"),
        row("Dogs", "false", "Soccer Open", "East")
    );
    let data = prepare_csv_import(&content).unwrap();
    assert_eq!(data.divisions, vec!["Rescue", "Soccer Open"]);
    assert_eq!(data.selected_divisions, data.divisions);
    assert_eq!(data.raw_content, content);
}

#[test]
fn prepare_rejects_empty_or_headerless_files() {
    assert_eq!(prepare_csv_import("").unwrap_err(), "Empty CSV file");
    assert_eq!(
        prepare_csv_import("Team,Group\nx,y").unwrap_err(),
        "Invalid CSV: Missing 'Name' or 'Division' columns"
    );
}

#[test]
fn finalize_adds_teams_and_creates_divisions() {
    let content = format!(
        "{}\n{}\n{}\n{}\n{}\n   \n",
        HEADER,
        row("Bots", "false", "Soccer Open", "North"),
        row("Cats", "TRUE", "Soccer Open", "South"),
        row("Dogs", "false", "Rescue Line", "East"),
        row("Eels", "false", "Soccer Open", "West")
    );
    let data = prepare_csv_import(&content).unwrap();
    let mut config = TournamentConfig::default();
    let msg = finalize_csv_import(&mut config, &data, &vec!["rescue_line".to_string(), "soccer_open".to_string()]);
    assert_eq!(msg, "Successfully imported 3 teams!");
    let names: Vec<&str> = config.teams.iter().map(|t| t.name.as_str()).collect();
    assert_eq!(names, vec!["Bots", "Dogs", "Eels"]);
    // Divisions are created in order of first appearance, taking the ids given.
    assert_eq!(config.divisions.len(), 2);
    assert_eq!(config.divisions[0].name, "Soccer Open");
    assert_eq!(config.divisions[0].id, "rescue_line");
    assert_eq!(config.divisions[0].mode, SchedulingMode::HeadToHead);
    assert_eq!(config.divisions[0].volunteers_required, 2);
    assert_eq!(config.divisions[1].name, "Rescue Line");
    assert_eq!(config.divisions[1].mode, SchedulingMode::IndividualRun);
    assert_eq!(config.teams[0].division_id, "rescue_line");
    assert_eq!(config.teams[1].division_id, "soccer_open");
    assert_eq!(config.teams[2].organization, "West");
    for d in &config.divisions {
        let c = d.color.unwrap();
        assert!(c.iter().all(|v| (50..=200).contains(v)));
        assert_eq!(d.games_per_team, 3);
    }
}

#[test]
fn finalize_uses_existing_divisions_and_selection() {
    let content = format!(
        "{}\n{}\n{}\n",
        HEADER,
        row("Bots", "false", "Soccer Open", "North"),
        row("Dogs", "false", "Rescue Line", "East")
    );
    let mut data = prepare_csv_import(&content).unwrap();
    data.selected_divisions = vec!["Soccer Open".to_string()];
    let mut config = TournamentConfig::default();
    finalize_csv_import(&mut config, &data, &vec!["open".to_string()]);
    let msg = finalize_csv_import(&mut config, &data, &vec![]);
    assert_eq!(msg, "Successfully imported 1 teams!");
    assert_eq!(config.divisions.len(), 1);
    assert_eq!(config.teams.len(), 2);
    assert!(config.teams.iter().all(|t| t.division_id == "open"));
}

#[test]
fn import_names_new_divisions_and_checks_ids() {
    let content = format!(
        "{}\n{}\n{}\n{}\n",
        HEADER,
        row("Bots", "false", "Soccer Open", "North"),
        row("Dogs", "false", "Rescue Line", "East"),
        row("Eels", "false", "Soccer Open", "West")
    );
    let data = prepare_csv_import(&content).unwrap();
    let mut config = TournamentConfig::default();
    assert_eq!(import_division_names(&config, &data), vec!["Soccer Open", "Rescue Line"]);
    // Too few ids, a repeated id: nothing is imported.
    assert_eq!(import_csv_teams(&mut config, &data, &vec!["a".to_string()]), None);
    assert_eq!(import_csv_teams(&mut config, &data, &vec!["a".to_string(), "a".to_string()]), None);
    assert!(config.teams.is_empty() && config.divisions.is_empty());
    let ids = vec!["soccer_open".to_string(), "rescue_line".to_string()];
    assert!(ids_are_fresh(&ids, &config.divisions));
    assert_eq!(import_csv_teams(&mut config, &data, &ids), Some("Successfully imported 3 teams!".to_string()));
    assert_eq!(config.divisions[1].id, "rescue_line");
    // A second import of the same file creates no division and so needs no id;
    // an id already in use is refused.
    assert!(import_division_names(&config, &data).is_empty());
    assert!(!ids_are_fresh(&vec!["soccer_open".to_string()], &config.divisions));
    assert_eq!(import_csv_teams(&mut config, &data, &vec![]), Some("Successfully imported 3 teams!".to_string()));
    assert_eq!(config.teams.len(), 6);
}
