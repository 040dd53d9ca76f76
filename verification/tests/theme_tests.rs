use rcja_tournament_scheduler::model::{Division, SchedulingMode};
use rcja_tournament_scheduler::theme::{
    activate_by_name, competition_color_source, dedup_by_name, division_base_color, init, names, parse_hex, reload,
    set_active, DivisionColor, Theme, ThemeColor, ThemeRegistry,
};

fn rgba(r: u8, g: u8, b: u8, a: u8) -> ThemeColor {
    ThemeColor { r, g, b, a }
}

fn named(name: Option<&str>) -> Theme {
    let mut t = Theme::default();
    t.name = name.map(|s| s.to_string());
    t
}

#[test]
fn hex_colours_parse() {
    assert_eq!(parse_hex("#818cf8"), Ok(rgba(129, 140, 248, 255)));
    assert_eq!(parse_hex("818cf880"), Ok(rgba(129, 140, 248, 128)));
    assert_eq!(parse_hex("  ##FFFFFF "), Ok(rgba(255, 255, 255, 255)));
    // `from_str_radix` takes a leading plus sign in each pair.
    assert_eq!(parse_hex("+f+f+f"), Ok(rgba(15, 15, 15, 255)));
}

#[test]
fn hex_colour_errors() {
    assert_eq!(parse_hex("#12345"), Err("hex colour must be 6 or 8 digits, got '#12345'".to_string()));
    assert_eq!(parse_hex("zz0000"), Err("invalid hex colour 'zz0000'".to_string()));
    assert_eq!(parse_hex("00000g"), Err("invalid hex colour '00000g'".to_string()));
    assert_eq!(parse_hex(""), Err("hex colour must be 6 or 8 digits, got ''".to_string()));
    // Two-byte characters count as two digits' worth of bytes.
    assert_eq!(parse_hex("é1234"), Err("invalid hex colour 'é1234'".to_string()));
}

#[test]
fn default_theme_and_display_names() {
    let t = Theme::default();
    assert_eq!(t.display_name(), "Default (Dark)");
    assert_eq!(t.accent, rgba(129, 140, 248, 255));
    assert_eq!(t.division_palette.len(), 12);
    assert_eq!(named(None).display_name(), "Unnamed");
}

#[test]
fn registry_lists_and_activates_by_name() {
    let mut reg = ThemeRegistry::default();
    assert_eq!(names(&reg), vec!["Default (Dark)"]);
    let first = init(&mut reg, vec![named(Some("Default (Dark)")), named(Some("Light")), named(None)]);
    assert_eq!(first, "Default (Dark)");
    assert_eq!(names(&reg), vec!["Default (Dark)", "Light", "Unnamed"]);
    assert!(activate_by_name(&mut reg, "Light"));
    assert_eq!(reg.active.display_name(), "Light");
    assert!(!activate_by_name(&mut reg, "Solarized"));
    assert_eq!(reg.active.display_name(), "Light");
    set_active(&mut reg, named(Some("Custom")));
    assert_eq!(reg.active.display_name(), "Custom");
}

#[test]
fn reload_keeps_current_or_falls_back() {
    let mut reg = ThemeRegistry::default();
    let kept = reload(&mut reg, "Light", vec![named(Some("Default (Dark)")), named(Some("Light"))]);
    assert_eq!(kept, "Light");
    assert_eq!(reg.active.display_name(), "Light");
    let back = reload(&mut reg, "Light", vec![named(Some("Default (Dark)"))]);
    assert_eq!(back, "Default (Dark)");
    assert_eq!(names(&reg), vec!["Default (Dark)"]);
}

#[test]
fn duplicate_theme_names_are_dropped() {
    let themes = dedup_by_name(vec![
        named(Some("Default (Dark)")),
        named(Some("Ocean")),
        named(Some("Default (Dark)")),
        named(None),
        named(Some("Ocean")),
        named(None),
    ]);
    let listed: Vec<String> = themes.iter().map(|t| t.display_name()).collect();
    assert_eq!(listed, vec!["Default (Dark)", "Ocean", "Unnamed"]);
}

#[test]
fn division_colours_cycle_the_palette() {
    let t = Theme::default();
    assert_eq!(division_base_color(&t, 0), rgba(99, 102, 241, 255));
    assert_eq!(division_base_color(&t, 13), rgba(16, 185, 129, 255));
    let mut empty = Theme::default();
    empty.division_palette.clear();
    assert_eq!(division_base_color(&empty, 5), rgba(99, 102, 241, 255));
}

fn div(id: &str, color: Option<[u8; 3]>) -> Division {
    Division {
        id: id.to_string(),
        name: id.to_string(),
        mode: SchedulingMode::HeadToHead,
        games_per_team: 1,
        volunteers_required: 1,
        duration_minutes: 20,
        allowed_fields: None,
        interviews_enabled: false,
        interview_volunteers_required: 1,
        interview_duration_minutes: 10,
        finals_enabled: false,
        finals_rounds: None,
        finals_duration_minutes: None,
        finals_third_place_playoff: false,
        color,
        min_match_break_minutes: None,
    }
}

#[test]
fn competition_colour_source() {
    let divs = vec![div("a", None), div("b", Some([1, 2, 3]))];
    assert!(matches!(competition_color_source("b", &divs), DivisionColor::Explicit([1, 2, 3])));
    assert!(matches!(competition_color_source("a", &divs), DivisionColor::Slot(0)));
    // "ab": ((0 + 97) * 31 + 98) * 31 = 96255
    assert!(matches!(competition_color_source("ab", &divs), DivisionColor::Slot(96255)));
}
