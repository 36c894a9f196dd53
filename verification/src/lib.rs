//! A bounty-escrow task registry.
//!
//! Parties register tasks with an attached bounty, other parties submit
//! results, and once enough distinct parties have answered a task its bounty
//! is split evenly among them and the task moves from the open queue into the
//! history of the account that created it.

pub mod contract;
pub mod history;
pub mod laws;
pub mod ledger;
pub mod model;
pub mod queue;
pub mod settlement;
pub mod task;
pub mod task_id;
pub mod task_result;
pub mod text;
