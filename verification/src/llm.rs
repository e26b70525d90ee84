//! Talking to a language model: framing prompts, driving generation and reading replies.

pub mod bracket_laws;
pub mod chat;
pub mod chat_laws;
pub mod reply;
pub mod reply_laws;

pub use reply::{extract_json, json_candidates, parse_json, repair_json};
