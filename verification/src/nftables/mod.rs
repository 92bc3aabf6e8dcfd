pub mod config;
pub mod ruleset;
pub mod template;
pub mod watchdog;
