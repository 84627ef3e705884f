use sprint_report::{Config, ConfigError, build_query, resolve_query};

fn conf(board: Option<&str>, project: Option<&str>) -> Config {
    let mut c = Config::default();
    c.board = board.map(|s| s.to_string());
    c.project = project.map(|s| s.to_string());
    c
}

#[test]
fn query_matches_the_template() {
    let q = build_query(
        &"Sprint 42".to_string(),
        &"Team Board".to_string(),
        &"PROJ".to_string(),
    );
    let expected = format!(
        "issueFunction not in removedAfterSprintStart(\"{b}\", \"{s}\") AND sprint = \"{s}\" and Project = \"{p}\" ORDER BY status",
        b = "Team Board",
        s = "Sprint 42",
        p = "PROJ"
    );
    assert_eq!(q, expected);
}

#[test]
fn distinct_triples_give_distinct_queries() {
    let a = build_query(&"S1".to_string(), &"B".to_string(), &"P".to_string());
    let b = build_query(&"S2".to_string(), &"B".to_string(), &"P".to_string());
    let c = build_query(&"S1".to_string(), &"B2".to_string(), &"P".to_string());
    let d = build_query(&"S1".to_string(), &"B".to_string(), &"P2".to_string());
    assert_ne!(a, b);
    assert_ne!(a, c);
    assert_ne!(a, d);
    assert_ne!(b, c);
    assert_ne!(b, d);
    assert_ne!(c, d);
}

#[test]
fn same_triple_gives_the_same_query() {
    let a = build_query(&"S1".to_string(), &"B".to_string(), &"P".to_string());
    let b = build_query(&"S1".to_string(), &"B".to_string(), &"P".to_string());
    assert_eq!(a, b);
}

#[test]
fn missing_board_is_fatal() {
    let c = conf(None, Some("PROJ"));
    assert_eq!(
        resolve_query(&c, &"S".to_string()),
        Err(ConfigError::MissingBoard)
    );
}

#[test]
fn missing_project_is_fatal() {
    let c = conf(Some("Board"), None);
    assert_eq!(
        resolve_query(&c, &"S".to_string()),
        Err(ConfigError::MissingProject)
    );
}

#[test]
fn complete_configuration_builds_the_query() {
    let c = conf(Some("Board"), Some("PROJ"));
    let q = resolve_query(&c, &"S".to_string()).expect("both identifiers are present");
    assert_eq!(
        q,
        build_query(&"S".to_string(), &"Board".to_string(), &"PROJ".to_string())
    );
}

#[test]
fn default_config_has_the_documented_values() {
    let c = Config::default();
    assert_eq!(c.fields, vec!["summary", "status", "components", "issuetype"]);
    assert_eq!(c.board, None);
    assert_eq!(c.project, None);
    assert_eq!(c.components, vec!["*"]);
    assert_eq!(
        c.status_tables,
        vec![
            vec!["Done".to_string()],
            vec![
                "Review".to_string(),
                "In progress".to_string(),
                "Ready".to_string(),
                "To do".to_string()
            ]
        ]
    );
}
