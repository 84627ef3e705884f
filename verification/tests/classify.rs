use sprint_report::{FlagField, IssueRecord, classify, component_bucket, status_bucket};

fn issue(key: &str, status: Option<&str>, components: &[&str]) -> IssueRecord {
    IssueRecord {
        key: key.to_string(),
        summary: None,
        status_name: status.map(|s| s.to_string()),
        issue_type_name: "Task".to_string(),
        components: components.iter().map(|c| c.to_string()).collect(),
        flag_field: FlagField::Absent,
    }
}

fn strings(xs: &[&str]) -> Vec<String> {
    xs.iter().map(|s| s.to_string()).collect()
}

#[test]
fn named_and_catch_all_component_buckets() {
    let issues = vec![
        issue("A-1", Some("Done"), &["Backend"]),
        issue("A-2", Some("Done"), &["UI"]),
    ];
    let comps = strings(&["Backend", "*"]);
    let backend = component_bucket(&issues, &"Backend".to_string(), &comps);
    assert_eq!(backend.len(), 1);
    assert_eq!(backend[0].key, "A-1");
    let others = component_bucket(&issues, &"*".to_string(), &comps);
    assert_eq!(others.len(), 1);
    assert_eq!(others[0].key, "A-2");
}

#[test]
fn wildcard_status_group_keeps_everything() {
    let bucket = vec![
        issue("A-1", Some("Done"), &[]),
        issue("A-2", Some("Done"), &[]),
        issue("A-3", Some("Review"), &[]),
    ];
    let done = status_bucket(&bucket, &strings(&["Done"]));
    assert_eq!(done.len(), 2);
    let all = status_bucket(&bucket, &strings(&["*"]));
    assert_eq!(all.len(), 3);
}

#[test]
fn issue_without_status_matches_only_the_wildcard() {
    let bucket = vec![issue("A-1", None, &[])];
    assert_eq!(status_bucket(&bucket, &strings(&["Done"])).len(), 0);
    assert_eq!(status_bucket(&bucket, &strings(&["*"])).len(), 1);
}

#[test]
fn order_is_preserved_within_buckets() {
    let bucket = vec![
        issue("A-3", Some("Done"), &[]),
        issue("A-1", Some("Done"), &[]),
        issue("A-2", Some("Done"), &[]),
    ];
    let done = status_bucket(&bucket, &strings(&["Done"]));
    let keys: Vec<&str> = done.iter().map(|i| i.key.as_str()).collect();
    assert_eq!(keys, vec!["A-3", "A-1", "A-2"]);
}

#[test]
fn an_issue_can_appear_in_two_named_buckets() {
    let issues = vec![issue("A-1", Some("Done"), &["Backend", "UI"])];
    let comps = strings(&["Backend", "UI"]);
    assert_eq!(component_bucket(&issues, &"Backend".to_string(), &comps).len(), 1);
    assert_eq!(component_bucket(&issues, &"UI".to_string(), &comps).len(), 1);
}

#[test]
fn classify_emits_component_major_buckets_with_labels() {
    let issues = vec![
        issue("A-1", Some("Done"), &["Backend"]),
        issue("A-2", Some("Review"), &["UI"]),
    ];
    let comps = strings(&["Backend", "*"]);
    let tables = vec![strings(&["Done"]), strings(&["*"])];
    let buckets = classify(&issues, &comps, &tables);
    assert_eq!(buckets.len(), 4);
    assert_eq!(buckets[0].component_label, "Backend");
    assert_eq!(buckets[0].statuses, strings(&["Done"]));
    assert_eq!(buckets[0].issues.len(), 1);
    assert_eq!(buckets[1].component_label, "Backend");
    assert_eq!(buckets[1].issues.len(), 1);
    assert_eq!(buckets[2].component_label, "Others");
    assert_eq!(buckets[2].issues.len(), 0);
    assert_eq!(buckets[3].component_label, "Others");
    assert_eq!(buckets[3].issues[0].key, "A-2");
}

#[test]
fn classification_is_idempotent() {
    let issues = vec![
        issue("A-1", Some("Done"), &["Backend"]),
        issue("A-2", Some("Review"), &["UI"]),
        issue("A-3", None, &[]),
    ];
    let comps = strings(&["Backend", "*"]);
    let tables = vec![strings(&["Done"]), strings(&["Review", "*"])];
    let first = classify(&issues, &comps, &tables);
    let second = classify(&issues, &comps, &tables);
    assert_eq!(first, second);
}
