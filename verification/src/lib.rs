//! Turn Them Off: the verified core of a hard, timed block on LLM endpoints.

pub mod blocklist;
pub mod cli;
pub mod daemon;
pub mod hosts;
pub mod install;
pub mod menu;
pub mod paths;
pub mod procs;
pub mod proto;
pub mod state;
pub mod text;
pub mod when;
