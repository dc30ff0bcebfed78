//! What the drawing of a span remembers between two events of the pointer.

use vstd::prelude::*;

verus! {

/// What is under the pointer.
#[derive(Debug, Clone)]
pub struct MouseInteraction {
    /// The index of the cut point under the pointer, if there is one.
    pub hovered: Option<usize>,
}

impl Default for MouseInteraction {
    fn default() -> (state: Self)
        ensures
            state.hovered is None,
    {
        MouseInteraction { hovered: None }
    }
}

} // verus!
