//! Polls web pages, compares each against its last snapshot through a
//! per-target regex lens, and decides when and what to notify.
pub mod config;
pub mod diff;
pub mod monitor;
pub mod ntfy;
pub mod text;
pub mod state;
pub mod state_format;
pub mod patterns;
pub mod schedule;
pub mod paths;
