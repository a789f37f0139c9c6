//! Ephemeral variables: values kept on the local machine only.

use vstd::prelude::*;
use crate::domain::app_config::AppConfig;
use crate::table::Table;

verus! {

/// The ephemeral variables.
pub fn get_ephenvs(app_config: &AppConfig) -> (r: Table<String>)
    ensures
        r@ == app_config.ephenvs@,
        crate::table::pair_views(r.entries@) == crate::table::pair_views(app_config.ephenvs.entries@),
{
    app_config.ephenvs.copy()
}

/// Sets the ephemeral variable `key` to `value`; the other settings stay.
pub fn set_ephenv(app_config: &mut AppConfig, key: String, value: String)
    ensures
        old(app_config).ephenvs.wf() ==> final(app_config).ephenvs.wf(),
        final(app_config).ephenvs@ == old(app_config).ephenvs@.insert(key@, value@),
        final(app_config).current_env == old(app_config).current_env,
        final(app_config).prev_request == old(app_config).prev_request,
        final(app_config).last_seen_version == old(app_config).last_seen_version,
{
    app_config.ephenvs.insert(key, value);
}

/// After setting `key` to `value`, the ephemeral variables give `value` for
/// `key` and what they gave before for every other name.
pub proof fn law_ephenv_read_after_write(
    before: Map<Seq<char>, Seq<char>>,
    after: Map<Seq<char>, Seq<char>>,
    key: Seq<char>,
    value: Seq<char>,
)
    requires
        after == before.insert(key, value),
    ensures
        after.contains_key(key) && after[key] == value,
        forall|k: Seq<char>| k != key ==> (after.contains_key(k) <==> before.contains_key(k)),
        forall|k: Seq<char>| k != key && before.contains_key(k) ==> after[k] == before[k],
{
}

} // verus!
