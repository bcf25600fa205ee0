//! The decisions behind a desktop tool that finds text in a video and blacks it out: what is asked
//! of ffmpeg and what its answers mean, how frames are read and put in order, what goes into the
//! logs.

pub mod clock;
pub mod error;
pub mod export;
pub mod ffmpeg;
pub mod frames;
pub mod hash;
pub mod json;
pub mod laws;
pub mod log;
pub mod numeral;
pub mod ocr;
pub mod probe;
pub mod recents;
pub mod scale;
pub mod shell;
pub mod text;
pub mod tools;

pub use crate::clock::now_iso;
pub use crate::error::Error;
pub use crate::export::ExportReport;
pub use crate::ffmpeg::{parse_time, readable_error, tool_version};
pub use crate::frames::FrameReader;
pub use crate::ocr::{union, Line, OcrOpts, OcrResult, Word};
pub use crate::probe::{probe, VideoInfo};
pub use crate::recents::{recents, set_recents};
pub use crate::tools::tool;
