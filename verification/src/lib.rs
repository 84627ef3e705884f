//! Sprint status reporting core: issue records, the flag custom field,
//! the remote query template, the snapshot cache codec, and the
//! component/status classifier that feeds the report renderer.

pub mod cache;
pub mod classify;
pub mod codec;
pub mod config;
pub mod issues;
pub mod query;
pub mod report;

pub use cache::FetchPlan;
pub use cache::cache_path_for;
pub use cache::plan_fetch;
pub use classify::Bucket;
pub use classify::classify;
pub use classify::component_bucket;
pub use classify::status_bucket;
pub use classify::vec_contains_str;
pub use codec::decode_snapshot;
pub use codec::encode_snapshot;
pub use config::Config;
pub use config::ConfigError;
pub use issues::Flagged;
pub use issues::FlagField;
pub use issues::IssueRecord;
pub use issues::is_flagged;
pub use query::build_query;
pub use query::resolve_query;
pub use report::Row;
pub use report::assemble_rows;
pub use report::flag_marker;
pub use report::join_statuses;
