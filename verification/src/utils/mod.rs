pub mod error;
pub mod http;
pub mod input;
