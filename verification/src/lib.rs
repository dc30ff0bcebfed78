//! Timeline segmentation for an audio track.
//!
//! A track is covered by an ordered row of spans. Candidate cut points found
//! by a silence analysis are handed to the spans that contain them, chosen cut
//! points split spans in two, and a playback cursor is kept in step with the
//! row even after a span has been deleted from it.
//!
//! All times are whole nanoseconds since the start of the track.

pub mod debug_id;
pub mod error;
pub mod ordered;
pub mod text;
pub mod decimal;
pub mod utils;
pub mod analyze;
pub mod audio_span;
pub mod audio;
pub mod user_info;
pub mod canvas;
pub mod controller;

pub use crate::audio::Audio;
pub use crate::audio_span::AudioSpan;
pub use crate::controller::{Action, AudioSplit, Message};
pub use crate::debug_id::DebugId;
pub use crate::user_info::UserInfo;
