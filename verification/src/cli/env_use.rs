//! `hit env use <env>`: makes an environment the active one.

use vstd::prelude::*;
use crate::domain::app_config::AppConfig;
use crate::domain::env::{set_env, with_env};
use crate::utils::error::CliError;

verus! {

/// The arguments of `env use`.
pub struct EnvUseArguments {
    pub env: String,
}

/// Makes `args.env` the active environment. It always succeeds.
pub fn init(app_config: &mut AppConfig, args: EnvUseArguments) -> (r: Result<(), CliError>)
    ensures
        r is Ok,
        *final(app_config) == with_env(*old(app_config), args.env),
{
    set_env(app_config, args.env);
    Ok(())
}

} // verus!
