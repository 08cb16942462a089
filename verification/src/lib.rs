//! Recording and replay of terminal sessions with timing data.
//!
//! A session is captured as a stream of timestamped output chunks and persisted
//! in one of two on-disk formats: the legacy two-file representation used by
//! `script`/`scriptreplay` (a raw session blob plus a timing log), or the
//! single-file JSON-lines asciicast v2 format. This crate holds the verified
//! core: the ANSI sanitizer, the writers for both formats, format detection,
//! and the replay planners that turn persisted data back into paced output
//! blocks. Process spawning, file handling and the pacing loop itself are left
//! to the surrounding application, which feeds this library plain values.

pub mod asciicast;
pub mod delay;
pub mod detect;
pub mod errors;
pub mod numbers;
pub mod player;
pub mod recorder;
pub mod sanitizer;
pub mod strings;
pub mod timing;

pub use asciicast::{format_event_line, format_header_line, plan_asciicast, CastStep};
pub use detect::{detect_format, SessionFormat};
pub use errors::Error;
pub use player::Player;
pub use recorder::{cast_event, LegacyRecording, Recorder};
pub use sanitizer::clean_for_display;
pub use timing::{format_timing_line, plan_legacy, LegacyStep};
