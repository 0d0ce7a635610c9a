//! The League client: how to reach it and what it reports.

pub mod discovery;
pub mod events;
pub mod poller;
pub mod process;
pub mod refresh;
