//! `hit`: a command-line API client whose commands are described by a JSON
//! config. This crate holds the verified core: text templating of route,
//! header and body parameters, a model of JSON values, environment selection,
//! request planning and config generation from an OpenAPI description.

pub mod json;
pub mod number;
pub mod table;
pub mod template;
pub mod text;
pub mod cli;
pub mod domain;
pub mod utils;
