use sprint_report::{Flagged, FlagField, is_flagged, flag_marker};

fn entry(value: &str) -> Flagged {
    Flagged {
        disabled: false,
        id: "10000".to_string(),
        self_link: "https://tracker.example/field/10000".to_string(),
        value: value.to_string(),
    }
}

#[test]
fn impediment_entry_flags() {
    let field = FlagField::Entries(vec![entry("Impediment")]);
    assert!(is_flagged(&field));
}

#[test]
fn impediment_among_others_flags() {
    let field = FlagField::Entries(vec![entry("Blocked"), entry("Impediment"), entry("Minor")]);
    assert!(is_flagged(&field));
}

#[test]
fn other_values_do_not_flag() {
    let field = FlagField::Entries(vec![entry("Blocked"), entry("impediment")]);
    assert!(!is_flagged(&field));
}

#[test]
fn empty_entry_list_does_not_flag() {
    let field = FlagField::Entries(Vec::new());
    assert!(!is_flagged(&field));
}

#[test]
fn absent_field_does_not_flag() {
    assert!(!is_flagged(&FlagField::Absent));
}

#[test]
fn malformed_field_does_not_flag() {
    assert!(!is_flagged(&FlagField::Malformed));
}

#[test]
fn marker_for_flagged_is_glyph_and_space() {
    let field = FlagField::Entries(vec![entry("Impediment")]);
    assert_eq!(flag_marker(&field), "\u{1F6A9} ".to_string());
}

#[test]
fn marker_for_unflagged_is_empty() {
    assert_eq!(flag_marker(&FlagField::Absent), String::new());
    assert_eq!(flag_marker(&FlagField::Malformed), String::new());
}
