//! Reading and writing SRT files, and laying subtitles out on screen.

pub mod clause_laws;
pub mod cue;
pub mod cue_laws;
pub mod file;
pub mod file_laws;
pub mod line_laws;
pub mod roundtrip;
pub mod time_laws;
pub mod timestamp;
pub mod wrap;
pub mod wrap_laws;

pub use cue::{layout, split_long_cue, CueLimit};
pub use file::{checked_parse_srt, parse_srt, render_srt, SrtError};
pub use timestamp::{format_timestamp, parse_ts};
pub use wrap::{display_width, wrap_text};
