pub mod app_config;
pub mod command;
pub mod config;
pub mod env;
pub mod ephenv;
pub mod openapi;
pub mod references;
