//! Environment variables in templates: `{{NAME}}` is replaced by the value
//! of `NAME` in the active environment or among the ephemeral variables.

use vstd::prelude::*;
use crate::table::Table;
use crate::text::contains_text;

verus! {

/// What `Regex::new(r"\{\{\w+}}").unwrap().is_match(text)` gives: whether the
/// text holds `{{`, one or more word characters, and `}}`.
pub uninterp spec fn has_env_var_placeholder(text: Seq<char>) -> bool;

/// What `Handlebars::render_template(template, data)` gives for a template
/// and the variables of `data`, with `no_escape` as the escape function (a
/// value is inserted as it was set): the rendered text, or the text of the
/// error.
pub uninterp spec fn rendered_template(template: Seq<char>, data: Map<Seq<char>, Seq<char>>) -> Result<Seq<char>, Seq<char>>;

/// Whether `text` holds an environment-variable placeholder, matched with the
/// `regex` crate against `\{\{\w+}}`. The contract claims that the result is
/// the one named `has_env_var_placeholder`, and that a match needs `{{` in
/// the text; which characters `\w` takes in is not stated.
#[verifier::external_body]
pub(crate) fn env_var_pattern_matches(text: &str) -> (b: bool)
    ensures
        b == has_env_var_placeholder(text@),
        b ==> contains_text(text@, "{{"@),
{
    regex::Regex::new(r"\{\{\w+}}").unwrap().is_match(text)
}

/// Renders `template` with `handlebars`, the variables of `data` as the
/// context, values inserted without HTML escaping (`no_escape`); on failure
/// the error's text comes back. The contract claims only that the result is
/// the one named `rendered_template`.
#[verifier::external_body]
pub(crate) fn render_template(template: &str, data: &Table<String>) -> (r: Result<String, String>)
    ensures
        match rendered_template(template@, data@) {
            Ok(s) => r matches Ok(x) && x@ == s,
            Err(m) => r matches Err(x) && x@ == m,
        },
{
    let context: std::collections::HashMap<String, String> = data.entries.iter().cloned().collect();
    let mut registry = handlebars::Handlebars::new();
    registry.register_escape_fn(handlebars::no_escape);
    registry.render_template(template, &context).map_err(|e| e.to_string())
}

} // verus!
