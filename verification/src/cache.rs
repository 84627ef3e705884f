//! The result cache decision: where a sprint's snapshot lives, and what a
//! run must do given the configuration and what was found on disk.  Reading
//! and writing the file, and the remote call itself, happen outside this
//! crate; this module decides and the caller obeys.

use vstd::prelude::*;
use crate::codec::{decode_snapshot, sdec_snapshot};
use crate::config::{Config, ConfigError};
use crate::issues::{IssueRecord, clone_strings};
use crate::query::{resolve_query, spec_query};

verus! {

/// The cap on remote results requested in one fetch.
pub const MAX_RESULTS: u64 = 1000;

/// Where a sprint's snapshot lives, relative to the working directory: one
/// file per sprint name, under the fixed cache directory.
pub open spec fn spec_cache_path(sprint: Seq<char>) -> Seq<char> {
    "cache/"@ + sprint
}

/// The cache file path for a sprint.
pub fn cache_path_for(sprint: &String) -> (r: String)
    ensures
        r@ == spec_cache_path(sprint@),
{
    let mut p = String::from_str("cache/");
    p.append(sprint.as_str());
    p
}

/// What a run does after the cache lookup.
pub enum FetchPlan {
    /// A cached snapshot was found and decoded: report from it, note that the
    /// output may be stale, and make no remote call.
    UseCache(Vec<IssueRecord>),
    /// A cache file exists but is not a valid snapshot encoding: fatal for
    /// this run; the operator must clear the cache to recover.
    CorruptCache,
    /// No cached snapshot: fetch from the remote service with this query,
    /// these fields and this result cap, then write the encoded snapshot.
    FetchRemote { query: String, fields: Vec<String>, max_results: u64 },
}

/// Decides the run's fetch plan from the configuration, the sprint name and
/// the bytes of the cache file, if one exists.  A missing board or project
/// identifier is fatal before any cache or remote activity; a present cache
/// file is used exactly when it decodes, and decode failure is surfaced, not
/// masked by a remote fetch.
pub fn plan_fetch(conf: &Config, sprint: &String, cache_bytes: &Option<Vec<u8>>) -> (r: Result<
    FetchPlan,
    ConfigError,
>)
    ensures
        conf@.board is None ==> r == Err::<FetchPlan, ConfigError>(ConfigError::MissingBoard),
        conf@.board is Some && conf@.project is None ==> r == Err::<FetchPlan, ConfigError>(
            ConfigError::MissingProject,
        ),
        conf@.board is Some && conf@.project is Some && cache_bytes is None ==> (r matches Ok(plan)
            && plan matches FetchPlan::FetchRemote { query, fields, max_results } && query@
            == spec_query(sprint@, conf@.board->0, conf@.project->0) && fields.deep_view()
            == conf@.fields && max_results == MAX_RESULTS),
        conf@.board is Some && conf@.project is Some ==> (cache_bytes matches Some(bytes) ==> ((
        sdec_snapshot(bytes@) matches Some(s) ==> (r matches Ok(plan)
            && plan matches FetchPlan::UseCache(v) && v.deep_view() == s)) && (sdec_snapshot(
            bytes@,
        ) is None ==> r == Ok::<FetchPlan, ConfigError>(FetchPlan::CorruptCache)))),
{
    let query = match resolve_query(conf, sprint) {
        Ok(q) => q,
        Err(e) => {
            return Err(e);
        },
    };
    match cache_bytes {
        Some(bytes) => match decode_snapshot(bytes) {
            Some(issues) => Ok(FetchPlan::UseCache(issues)),
            None => Ok(FetchPlan::CorruptCache),
        },
        None => Ok(
            FetchPlan::FetchRemote {
                query,
                fields: clone_strings(&conf.fields),
                max_results: MAX_RESULTS,
            },
        ),
    }
}

} // verus!
