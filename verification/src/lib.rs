//! Session core of a client for language-model services: requests, context budgets, streaming.

pub mod arrange;
pub mod bytes;
pub mod digest;
pub mod double;
pub mod error;
pub mod json;
pub mod llm;
pub mod model;
pub mod orchestrator;
pub mod plugin;
pub mod rounding;
pub mod text;
pub mod text_map;
