//! Sessions with language-model services.

pub mod assembly;
pub mod context_budget;
pub mod context_snapshot;
pub mod followup;
pub mod handle;
pub mod provider;
pub mod repair;
pub mod round_laws;
pub mod rounds;
pub mod sanitize;
pub mod session;
pub mod session_laws;
pub mod stream_decoder;
pub mod stream_laws;
pub mod stream_turn;
pub mod token_estimate;
pub mod tool;
pub mod tool_calls;
pub mod tree;
pub mod trim;
pub mod trim_laws;
pub mod truncation;
pub mod turn;
pub mod types;
