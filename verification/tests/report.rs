use sprint_report::{Flagged, FlagField, IssueRecord, assemble_rows, join_statuses};

fn issue(key: &str, status: &str, summary: Option<&str>, flag: FlagField) -> IssueRecord {
    IssueRecord {
        key: key.to_string(),
        summary: summary.map(|s| s.to_string()),
        status_name: Some(status.to_string()),
        issue_type_name: "Bug".to_string(),
        components: Vec::new(),
        flag_field: flag,
    }
}

#[test]
fn unflagged_leading_cell_is_exactly_the_status() {
    let bucket = vec![issue("A-1", "Done", Some("All good"), FlagField::Absent)];
    let rows = assemble_rows(&bucket);
    assert_eq!(rows.len(), 1);
    assert_eq!(rows[0].leading, "Done");
    assert_eq!(rows[0].key, "A-1");
    assert_eq!(rows[0].summary, "All good");
    assert_eq!(rows[0].issue_type, "Bug");
}

#[test]
fn flagged_leading_cell_prepends_the_marker() {
    let flag = FlagField::Entries(vec![Flagged {
        disabled: false,
        id: "10000".to_string(),
        self_link: "https://tracker.example/field/10000".to_string(),
        value: "Impediment".to_string(),
    }]);
    let bucket = vec![issue("A-2", "Review", Some("Stuck"), flag)];
    let rows = assemble_rows(&bucket);
    assert_eq!(rows[0].leading, "\u{1F6A9} Review");
}

#[test]
fn missing_summary_becomes_a_dash() {
    let bucket = vec![issue("A-3", "Done", None, FlagField::Malformed)];
    let rows = assemble_rows(&bucket);
    assert_eq!(rows[0].summary, "-");
    assert_eq!(rows[0].leading, "Done");
}

#[test]
fn rows_keep_the_bucket_order() {
    let bucket = vec![
        issue("A-2", "Done", None, FlagField::Absent),
        issue("A-1", "Done", None, FlagField::Absent),
    ];
    let rows = assemble_rows(&bucket);
    assert_eq!(rows[0].key, "A-2");
    assert_eq!(rows[1].key, "A-1");
}

#[test]
fn statuses_join_with_slashes() {
    let group = vec![
        "Review".to_string(),
        "In progress".to_string(),
        "Ready".to_string(),
    ];
    assert_eq!(join_statuses(&group), "Review/In progress/Ready");
    assert_eq!(join_statuses(&vec!["Done".to_string()]), "Done");
    assert_eq!(join_statuses(&Vec::new()), "");
}
