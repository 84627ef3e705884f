use sprint_report::{Flagged, FlagField, IssueRecord, encode_snapshot, decode_snapshot};

fn full_issue() -> IssueRecord {
    IssueRecord {
        key: "PROJ-17".to_string(),
        summary: Some("Fix the cache".to_string()),
        status_name: Some("In progress".to_string()),
        issue_type_name: "Bug".to_string(),
        components: vec!["Backend".to_string(), "Infra".to_string()],
        flag_field: FlagField::Entries(vec![Flagged {
            disabled: false,
            id: "10000".to_string(),
            self_link: "https://tracker.example/field/10000".to_string(),
            value: "Impediment".to_string(),
        }]),
    }
}

fn bare_issue() -> IssueRecord {
    IssueRecord {
        key: "PROJ-18".to_string(),
        summary: None,
        status_name: None,
        issue_type_name: "Task".to_string(),
        components: Vec::new(),
        flag_field: FlagField::Absent,
    }
}

fn malformed_flag_issue() -> IssueRecord {
    IssueRecord {
        key: "PROJ-19 \u{00e9}\u{1F600}".to_string(),
        summary: Some(String::new()),
        status_name: Some("Done".to_string()),
        issue_type_name: "Story".to_string(),
        components: vec!["UI".to_string()],
        flag_field: FlagField::Malformed,
    }
}

#[test]
fn round_trip_preserves_every_field() {
    let snapshot = vec![full_issue(), bare_issue(), malformed_flag_issue()];
    let bytes = encode_snapshot(&snapshot);
    let decoded = decode_snapshot(&bytes).expect("an encoding must decode");
    assert_eq!(decoded, snapshot);
}

#[test]
fn round_trip_single_record_without_optionals() {
    let snapshot = vec![bare_issue()];
    let bytes = encode_snapshot(&snapshot);
    assert_eq!(decode_snapshot(&bytes), Some(snapshot));
}

#[test]
fn round_trip_empty_snapshot() {
    let snapshot: Vec<IssueRecord> = Vec::new();
    let bytes = encode_snapshot(&snapshot);
    assert_eq!(decode_snapshot(&bytes), Some(snapshot));
}

#[test]
fn garbage_bytes_do_not_decode() {
    assert_eq!(decode_snapshot(&vec![1u8, 2, 3]), None);
    assert_eq!(decode_snapshot(&Vec::new()), None);
}

#[test]
fn truncated_encoding_does_not_decode() {
    let snapshot = vec![full_issue()];
    let mut bytes = encode_snapshot(&snapshot);
    bytes.pop();
    assert_eq!(decode_snapshot(&bytes), None);
}

#[test]
fn trailing_bytes_do_not_decode() {
    let snapshot = vec![full_issue()];
    let mut bytes = encode_snapshot(&snapshot);
    bytes.push(0u8);
    assert_eq!(decode_snapshot(&bytes), None);
}
