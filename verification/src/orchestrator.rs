//! How the configuration of a turn is put together from what the caller knows.

pub mod context;
pub mod orchestrator;
