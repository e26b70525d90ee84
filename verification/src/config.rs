//! Settings, and the files that belong to them.

pub mod hunt;
pub mod models;
pub mod paths;
pub mod search_laws;
pub mod settings;
pub mod settings_laws;

pub use hunt::ModelHunt;
pub use models::{DirEntry, ModelSearch};
pub use paths::InputPath;
pub use settings::{Args, Config, ConfigError, Correction, Resources};
