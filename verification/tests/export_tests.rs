use rcja_tournament_scheduler::export::{csv_field, day_abbr, format_time_str};

#[test]
fn twelve_hour_formatting() {
    assert_eq!(format_time_str("09:00", false), "09:00");
    assert_eq!(format_time_str("09:00", true), "9:00 AM");
    assert_eq!(format_time_str("14:20", true), "2:20 PM");
    assert_eq!(format_time_str("00:00", true), "12:00 AM");
    assert_eq!(format_time_str("12:00", true), "12:00 PM");
    assert_eq!(format_time_str("23:59", true), "11:59 PM");
    assert_eq!(format_time_str("bogus", true), "bogus");
    assert_eq!(format_time_str("25:00", true), "25:00");
}

#[test]
fn day_names_shorten_to_three_characters() {
    assert_eq!(day_abbr("Saturday"), "Sat");
    assert_eq!(day_abbr("Sábado"), "Sáb");
    assert_eq!(day_abbr("Sun"), "Sun");
    assert_eq!(day_abbr("Do"), "Do");
    assert_eq!(day_abbr(""), "");
}

#[test]
fn escaped_fields_double_every_quote() {
    assert_eq!(csv_field("plain"), "plain");
    assert_eq!(csv_field("say \"hi\""), "say \"\"hi\"\"");
    assert_eq!(csv_field("\"\"\""), "\"\"\"\"\"\"");
}
