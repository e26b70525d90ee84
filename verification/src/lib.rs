//! Subtitle transcription and localisation helper: the parts that decide and compute.

pub mod config;
pub mod llm;
pub mod pipeline;
pub mod prompt;
pub mod prompt_laws;
pub mod qc;
pub mod qc_laws;
pub mod runtime;
pub mod runtime_laws;
pub mod speech;
pub mod speech_laws;
pub mod srt;
pub mod text;
pub mod translate;
pub mod types;
pub mod types_laws;
