//! Blue-green deployments on one machine: an artifact is started in the slot
//! that has no traffic, asked whether it is ready, and only then given the
//! traffic; where anything fails before the record is changed, the slot that had
//! the traffic keeps it.
//!
//! The library decides and computes. It touches no file, process or connection:
//! what is to be done is handed out as a value, and what came of it is handed
//! back.
use vstd::prelude::*;

pub mod config;
pub mod deploy;
pub mod env_file;
pub mod events;
pub mod failure;
pub mod http;
pub mod lock;
pub mod nginx;
pub mod number;
pub mod order;
pub mod output;
pub mod paths;
pub mod process;
pub mod release;
pub mod serve;
pub mod slots;
pub mod state;
pub mod switch;
pub mod template;
pub mod text;
pub mod turns;

verus! {

} // verus!
