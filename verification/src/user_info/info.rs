//! What the user is told when something has gone well.

use vstd::prelude::*;
use vstd::string::StringExecFns;
use crate::utils::{decimal, push_decimal};

verus! {

pub const AUDIO_LOADED: &'static str = "Audio file loaded.";

/// The text that says how many candidate cut points an analysis has found.
pub open spec fn split_points_detected_text(count: usize) -> Seq<char> {
    "Detected "@ + decimal(count as nat) + " potential split points."@
}

/// Says how many candidate cut points an analysis has found.
pub fn split_points_detected(count: usize) -> (text: String)
    ensures
        text@ == split_points_detected_text(count),
{
    let mut text = String::from_str("Detected ");
    push_decimal(&mut text, count as u64);
    text.append(" potential split points.");
    text
}

} // verus!
