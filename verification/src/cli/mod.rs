pub mod env_use;
pub mod ephenv_set;
pub mod last_view;
pub mod params;
pub mod run;
