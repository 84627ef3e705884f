use sprint_report::{
    Config, ConfigError, FetchPlan, FlagField, IssueRecord, build_query, cache_path_for,
    decode_snapshot, encode_snapshot, plan_fetch,
};

fn conf() -> Config {
    let mut c = Config::default();
    c.board = Some("Team Board".to_string());
    c.project = Some("PROJ".to_string());
    c
}

fn issue(key: &str) -> IssueRecord {
    IssueRecord {
        key: key.to_string(),
        summary: Some("A summary".to_string()),
        status_name: Some("Done".to_string()),
        issue_type_name: "Task".to_string(),
        components: vec!["Backend".to_string()],
        flag_field: FlagField::Absent,
    }
}

#[test]
fn cache_path_is_the_sprint_file_under_cache() {
    assert_eq!(cache_path_for(&"Sprint 42".to_string()), "cache/Sprint 42");
}

#[test]
fn parseable_cache_is_used_and_no_fetch_is_planned() {
    let snapshot = vec![issue("A-1"), issue("A-2")];
    let bytes = encode_snapshot(&snapshot);
    let plan = plan_fetch(&conf(), &"Sprint 42".to_string(), &Some(bytes)).unwrap();
    match plan {
        FetchPlan::UseCache(got) => assert_eq!(got, snapshot),
        FetchPlan::CorruptCache => panic!("a valid cache was called corrupt"),
        FetchPlan::FetchRemote { .. } => panic!("a cache hit must not fetch"),
    }
}

#[test]
fn corrupt_cache_is_fatal_not_refetched() {
    let plan = plan_fetch(&conf(), &"Sprint 42".to_string(), &Some(vec![9u8, 9, 9])).unwrap();
    assert!(matches!(plan, FetchPlan::CorruptCache));
}

#[test]
fn missing_cache_plans_the_remote_fetch() {
    let plan = plan_fetch(&conf(), &"Sprint 42".to_string(), &None).unwrap();
    match plan {
        FetchPlan::FetchRemote { query, fields, max_results } => {
            assert_eq!(
                query,
                build_query(
                    &"Sprint 42".to_string(),
                    &"Team Board".to_string(),
                    &"PROJ".to_string()
                )
            );
            assert_eq!(fields, Config::default().fields);
            assert_eq!(max_results, 1000);
        },
        _ => panic!("a cache miss must fetch"),
    }
}

#[test]
fn fetched_data_survives_the_cache_write_and_reread() {
    let plan = plan_fetch(&conf(), &"Sprint 42".to_string(), &None).unwrap();
    assert!(matches!(plan, FetchPlan::FetchRemote { .. }));
    let fetched = vec![issue("A-1")];
    let written = encode_snapshot(&fetched);
    assert_eq!(decode_snapshot(&written), Some(fetched));
}

#[test]
fn missing_board_aborts_before_cache_or_remote() {
    let mut c = conf();
    c.board = None;
    let r = plan_fetch(&c, &"S".to_string(), &None);
    assert_eq!(r.err(), Some(ConfigError::MissingBoard));
}

#[test]
fn missing_project_aborts_before_cache_or_remote() {
    let mut c = conf();
    c.project = None;
    let r = plan_fetch(&c, &"S".to_string(), &Some(Vec::new()));
    assert_eq!(r.err(), Some(ConfigError::MissingProject));
}
