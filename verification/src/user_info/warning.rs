//! What the user is told when a request cannot be carried out as things are.

use vstd::prelude::*;

verus! {

pub const NO_AUDIO_LOADED: &'static str = "No audio file loaded. Please open an audio file first.";

pub const NO_SPLIT_POINT_SELECTED: &'static str =
    "No split point selected. Please analyze the audio first and then select split points to cut.";

pub const NO_SPLIT_POINTS_FOUND: &'static str =
    "No Split Points found. Please try to increase the db threshold or decrease duration.";

} // verus!
