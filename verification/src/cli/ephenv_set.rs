//! `hit ephenv set <key> <value>`: sets an ephemeral variable.

use vstd::prelude::*;
use crate::domain::app_config::AppConfig;
use crate::domain::ephenv::set_ephenv;
use crate::utils::error::CliError;

verus! {

/// The arguments of `ephenv set`.
pub struct EphenvSetArguments {
    pub key: String,
    pub value: String,
}

/// Sets the ephemeral variable `args.key` to `args.value`. It always succeeds.
pub fn init(app_config: &mut AppConfig, args: EphenvSetArguments) -> (r: Result<(), CliError>)
    ensures
        r is Ok,
        old(app_config).ephenvs.wf() ==> final(app_config).ephenvs.wf(),
        final(app_config).ephenvs@ == old(app_config).ephenvs@.insert(args.key@, args.value@),
        final(app_config).current_env == old(app_config).current_env,
        final(app_config).prev_request == old(app_config).prev_request,
        final(app_config).last_seen_version == old(app_config).last_seen_version,
{
    set_ephenv(app_config, args.key, args.value);
    Ok(())
}

} // verus!
