//! The settings kept on the local machine: the active environment, the
//! ephemeral variables, the last response and the last version seen.

use vstd::prelude::*;
use crate::table::Table;
use crate::utils::http::Response;

verus! {

/// The settings kept on the local machine.
pub struct AppConfig {
    pub current_env: Option<String>,
    pub ephenvs: Table<String>,
    pub prev_request: Option<Response>,
    pub last_seen_version: Option<String>,
}

impl AppConfig {
    /// Settings with nothing set.
    pub fn new() -> (a: AppConfig)
        ensures
            a.current_env is None,
            a.ephenvs.wf(),
            a.ephenvs@ == Map::<Seq<char>, Seq<char>>::empty(),
            a.prev_request is None,
            a.last_seen_version is None,
    {
        AppConfig { current_env: None, ephenvs: Table::new(), prev_request: None, last_seen_version: None }
    }
}

} // verus!
