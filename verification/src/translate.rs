//! Translating subtitles with a language model.
//!
//! A [`Translator`](translator::Translator) decides what to ask the model and what to do with each reply;
//! whoever runs it counts tokens, sends the requests and hands the replies back.

pub mod ask;
pub mod ask_laws;
pub mod attempt;
pub mod batch;
pub mod batches;
pub mod context;
pub mod copies;
pub mod copy_laws;
pub mod count_laws;
pub mod ending;
pub mod merge;
pub mod plan_laws;
pub mod prompts;
pub mod run;
pub mod run_laws;
pub mod step_laws;
pub mod translator;

pub use batches::plan_batches;
pub use translator::Translator;
pub use copies::has_residual_script;
